use xrce_client_rs::error::Error;
use xrce_client_rs::header::MessageHeader;
use xrce_client_rs::micro_cdr::{Decoder, Encoder};
use xrce_client_rs::stream_id::{StreamDirection, StreamId, StreamType};
use xrce_client_rs::submessage::{DataFormat, SubMessageHeader};
use xrce_client_rs::types::{CLIENT_Representation, CREATE_CLIENT_Payload, Property};
use xrce_client_rs::Endianness;

#[test]
fn a_header_without_key_is_four_bytes() {
    let mut buf = [0xFFu8; 8];
    let header = MessageHeader { session_id: 0x00, stream_id: 0x00, sequence_num: 0, key: None };
    assert_eq!(header.to_slice(&mut buf), Ok(4));
    assert_eq!(buf, [0, 0, 0, 0, 0xFF, 0xFF, 0xFF, 0xFF]);
}

#[test]
fn headers_round_trip() {
    for header in [
        MessageHeader::new(0x81, 0x80, 0x1234, None),
        MessageHeader::new(0x80, 0, 0, None),
        MessageHeader::new(0xFF, 0xFF, 0xFFFF, None),
        MessageHeader::new(0x00, 1, 7, Some([1, 2, 3, 4])),
        MessageHeader::new(0x7F, 127, 65500, Some([0xAA, 0xBB, 0xCC, 0xDD])),
    ] {
        let mut buf = [0u8; 8];
        let size = if header.key.is_some() { 8 } else { 4 };
        assert_eq!(header.to_slice(&mut buf), Ok(size));
        assert_eq!(MessageHeader::from_slice(&buf[..size]), Ok(header));
    }
}

#[test]
fn a_header_with_key_is_eight_bytes() {
    let mut buf = [0u8; 8];
    let header = MessageHeader::new(0x01, 0x02, 0x0403, Some([5, 6, 7, 8]));
    assert_eq!(header.to_slice(&mut buf), Ok(8));
    assert_eq!(buf, [1, 2, 3, 4, 5, 6, 7, 8]);
}

#[test]
fn a_header_that_is_cut_short_is_refused() {
    assert_eq!(MessageHeader::from_slice(&[0x81, 0, 0]), Err(Error::BufferNotEnough));
    assert_eq!(MessageHeader::from_slice(&[]), Err(Error::BufferNotEnough));
    assert_eq!(MessageHeader::from_slice(&[0x01, 0, 0, 0, 1, 2, 3]), Err(Error::BufferNotEnough));
    assert_eq!(
        MessageHeader::from_slice(&[0x81, 0, 0, 0]),
        Ok(MessageHeader::new(0x81, 0, 0, None))
    );

    let mut short = [0xFFu8; 3];
    assert_eq!(MessageHeader::new(0x81, 1, 2, None).to_slice(&mut short), Err(Error::BufferNotEnough));
    assert_eq!(short, [0x81, 1, 0xFF]);
    let mut short = [0u8; 6];
    assert_eq!(
        MessageHeader::new(0x01, 1, 2, Some([9, 9, 9, 9])).to_slice(&mut short),
        Err(Error::BufferNotEnough)
    );
}

#[test]
fn a_header_is_written_where_the_encoder_stands() {
    let mut buf = [0xFFu8; 8];
    let mut writer = Encoder::new_with_endianness(&mut buf, Endianness::BigEndianness);
    writer.serialize_u8(0xEE).unwrap();
    MessageHeader::new(0x81, 2, 0x0102, None).serialize(&mut writer).unwrap();
    assert_eq!(writer.finalize(), 6);
    assert_eq!(buf[..6], [0xEE, 0x81, 2, 0, 1, 2]);

    let mut reader = Decoder::new_with_endianness(&buf, Endianness::BigEndianness);
    reader.deserialize_u8().unwrap();
    assert_eq!(MessageHeader::deserialize(&mut reader), Ok(MessageHeader::new(0x81, 2, 0x0102, None)));
    assert_eq!(reader.finalize(), 6);
}

#[test]
fn an_acknack_header_is_four_known_bytes() {
    let mut buf = [0xFFu8; 4];
    assert_eq!(SubMessageHeader::AckNack(20).to_slice(&mut buf), Ok(4));
    assert_eq!(buf, [0x0A, 0x01, 0x14, 0x00]);
    assert_eq!(SubMessageHeader::from_slice(&buf), Ok(SubMessageHeader::AckNack(20)));
}

fn every_header() -> Vec<SubMessageHeader> {
    let mut all = vec![
        SubMessageHeader::CreateClient(16),
        SubMessageHeader::GetInfo(1),
        SubMessageHeader::Delete(2),
        SubMessageHeader::StatusAgent(3),
        SubMessageHeader::Status(4),
        SubMessageHeader::Info(5),
        SubMessageHeader::ReadData(6),
        SubMessageHeader::AckNack(7),
        SubMessageHeader::HeartBeat(8),
        SubMessageHeader::Reset(9),
        SubMessageHeader::TimeStamp(0),
        SubMessageHeader::TimeStampReply(0xFFFF),
    ];
    for a in [false, true] {
        all.push(SubMessageHeader::Fragment(0x0102, a));
        for b in [false, true] {
            all.push(SubMessageHeader::Create(0x0304, a, b));
        }
    }
    for format in [
        DataFormat::FormatData,
        DataFormat::FormatSample,
        DataFormat::FormatDataSeq,
        DataFormat::FormatSampleSeq,
        DataFormat::FormatPackedSamples,
    ] {
        all.push(SubMessageHeader::WriteData(0x0506, format));
        all.push(SubMessageHeader::Data(0x0708, format));
    }
    all
}

#[test]
fn submessage_headers_round_trip() {
    for header in every_header() {
        let mut buf = [0u8; 4];
        assert_eq!(header.to_slice(&mut buf), Ok(4));
        assert_eq!(buf[1] & 1, 1);
        assert_eq!(SubMessageHeader::from_slice(&buf), Ok(header));

        for order in [Endianness::LittleEndianness, Endianness::BigEndianness] {
            let (id, flags, length) = header.fields(order);
            assert_eq!(id, buf[0]);
            assert_eq!(flags | 1, buf[1]);
            assert_eq!(length.to_le_bytes(), [buf[2], buf[3]]);
            assert_eq!(SubMessageHeader::from_fields(id, flags, length), Ok(header));

            let mut buf = [0u8; 8];
            let mut writer = Encoder::new_with_endianness(&mut buf, order);
            writer.serialize_u8(0).unwrap();
            header.serialize(&mut writer).unwrap();
            assert_eq!(writer.finalize(), 6);
            let mut reader = Decoder::new_with_endianness(&buf, order);
            reader.deserialize_u8().unwrap();
            assert_eq!(SubMessageHeader::deserialize(&mut reader), Ok(header));
        }
    }
}

#[test]
fn flags_of_submessage_headers() {
    let big = Endianness::BigEndianness;
    let little = Endianness::LittleEndianness;
    assert_eq!(SubMessageHeader::Create(1, true, false).fields(big), (1, 0b100, 1));
    assert_eq!(SubMessageHeader::Create(1, false, true).fields(big), (1, 0b010, 1));
    assert_eq!(SubMessageHeader::Create(1, true, true).fields(little), (1, 0b111, 1));
    assert_eq!(SubMessageHeader::Fragment(2, true).fields(little), (13, 0b011, 2));
    assert_eq!(SubMessageHeader::WriteData(3, DataFormat::FormatPackedSamples).fields(big), (7, 0x0E, 3));
    assert_eq!(SubMessageHeader::Data(3, DataFormat::FormatSampleSeq).fields(little), (9, 0x0B, 3));
    assert_eq!(SubMessageHeader::Data(3, DataFormat::FormatData).fields(big), (9, 0x00, 3));
}

#[test]
fn fields_that_stand_for_no_submessage_are_refused() {
    assert_eq!(SubMessageHeader::from_slice(&[16, 1, 0, 0]), Err(Error::InvalidFormat(16)));
    assert_eq!(SubMessageHeader::from_slice(&[0xFF, 1, 0, 0]), Err(Error::InvalidFormat(0xFF)));
    assert_eq!(SubMessageHeader::from_slice(&[9, 0x04 | 1, 0, 0]), Err(Error::InvalidFormat(2)));
    assert_eq!(SubMessageHeader::from_slice(&[7, 0x06, 0, 0]), Err(Error::InvalidFormat(3)));
    assert_eq!(SubMessageHeader::from_slice(&[7, 0xFE, 0, 0]), Err(Error::InvalidFormat(0x7F)));
    assert_eq!(SubMessageHeader::from_slice(&[10, 1, 20]), Err(Error::BufferNotEnough));
    let mut short = [0u8; 3];
    assert_eq!(SubMessageHeader::AckNack(20).to_slice(&mut short), Err(Error::BufferNotEnough));
}

#[test]
fn data_formats_and_their_numbers() {
    for (format, code) in [
        (DataFormat::FormatData, 0x00),
        (DataFormat::FormatSample, 0x01),
        (DataFormat::FormatDataSeq, 0x04),
        (DataFormat::FormatSampleSeq, 0x05),
        (DataFormat::FormatPackedSamples, 0x07),
    ] {
        assert_eq!(format.to_u8(), code);
        assert_eq!(DataFormat::try_from(code), Ok(format));
    }
    for code in [0x02, 0x03, 0x06, 0x08, 0xFF] {
        assert_eq!(DataFormat::try_from(code), Err(Error::InvalidFormat(code)));
    }
}

#[test]
fn stream_ids_are_classified() {
    let input = StreamDirection::InputStream;
    let output = StreamDirection::OutputStream;
    for raw in 0..=255u8 {
        let id = StreamId::from_raw(raw, input);
        assert_eq!(id.raw, raw);
        assert_eq!(id.direction, input);
        if raw == 0 {
            assert_eq!((id.type_u, id.index), (StreamType::NoneStream, 0));
        } else if raw < 128 {
            assert_eq!((id.type_u, id.index), (StreamType::BestEffortStream, raw - 1));
        } else {
            assert_eq!((id.type_u, id.index), (StreamType::ReliableStream, raw - 128));
        }
        assert_eq!(StreamId::new(id.index, id.type_u, output).raw, raw);
    }
    assert_eq!(StreamId::from_raw(0x81, input).index, 1);
    assert_eq!(StreamId::new(5, StreamType::NoneStream, input).raw, 0);
    assert_eq!(StreamId::new(5, StreamType::SharedMemoryStream, input).raw, 0);
    assert_eq!(StreamId::new(126, StreamType::BestEffortStream, input).raw, 127);
    assert_eq!(StreamId::new(127, StreamType::ReliableStream, input).raw, 255);
}

fn plain(mtu: u16) -> CREATE_CLIENT_Payload<'static, 1> {
    CREATE_CLIENT_Payload(CLIENT_Representation {
        xrce_cookie: [b'X', b'R', b'C', b'E'],
        xrce_version: [1, 0],
        xrce_vendor_id: [0x0F, 0x0F],
        client_key: [0x22, 0x33, 0x44, 0x55],
        session_id: 0xDD,
        properties: None,
        mtu,
    })
}

#[test]
fn a_client_without_properties_is_twenty_bytes() {
    let mut buf = [0xFFu8; 24];
    assert_eq!(plain(252).to_slice(&mut buf), Ok(20));
    assert_eq!(
        buf,
        [
            0x00, 0x01, 0x10, 0x00, b'X', b'R', b'C', b'E', 1, 0, 0x0F, 0x0F, 0x22, 0x33, 0x44,
            0x55, 0xDD, 0x00, 252, 0, 0xFF, 0xFF, 0xFF, 0xFF
        ]
    );
    let mut exact = [0u8; 20];
    assert_eq!(plain(0x0102).to_slice(&mut exact), Ok(20));
    assert_eq!(exact[18..], [2, 1]);
    let mut short = [0u8; 19];
    assert_eq!(plain(252).to_slice(&mut short), Err(Error::BufferNotEnough));
    assert_eq!(short[..18], exact[..18]);
}

#[test]
fn clients_round_trip() {
    let mut buf = [0u8; 20];
    plain(0xBEEF).to_slice(&mut buf).unwrap();
    assert_eq!(CREATE_CLIENT_Payload::<1>::from_slice(&buf[4..]), Ok(plain(0xBEEF)));
    assert_eq!(CREATE_CLIENT_Payload::<2>::from_slice(&buf[4..]).map(|p| p.0.mtu), Ok(0xBEEF));
    assert_eq!(
        CREATE_CLIENT_Payload::<1>::from_slice(&buf[4..19]),
        Err(Error::BufferNotEnough)
    );

    let two: CREATE_CLIENT_Payload<'static, 2> = CREATE_CLIENT_Payload(CLIENT_Representation {
        xrce_cookie: [b'X', b'R', b'C', b'E'],
        xrce_version: [1, 0],
        xrce_vendor_id: [1, 0x0F],
        client_key: [1, 2, 3, 4],
        session_id: 0x81,
        properties: Some([
            Property { name: "uxr_sm", value: "1" },
            Property { name: "uxr_hl", value: "999999" },
        ]),
        mtu: 248,
    });
    let mut buf = [0u8; 71];
    assert_eq!(two.to_slice(&mut buf), Ok(66));
    assert_eq!(buf[..4], [0, 1, 16, 0]);
    assert_eq!(buf[17], 1);
    assert_eq!(buf[18..20], [0, 0]);
    assert_eq!(buf[20..31], [7, 0, 0, 0, b'u', b'x', b'r', b'_', b's', b'm', 0]);
    assert_eq!(buf[31], 0);
    assert_eq!(buf[32..38], [2, 0, 0, 0, b'1', 0]);
    assert_eq!(buf[64..66], [248, 0]);
    assert_eq!(CREATE_CLIENT_Payload::<2>::from_slice(&buf[4..66]), Ok(two));

    let mut short = [0u8; 40];
    assert_eq!(two.to_slice(&mut short), Err(Error::BufferNotEnough));
}

#[test]
fn properties_must_be_ascii() {
    let odd: CREATE_CLIENT_Payload<'static, 1> = CREATE_CLIENT_Payload(CLIENT_Representation {
        properties: Some([Property { name: "na\u{ef}ve", value: "1" }]),
        ..plain(1).0
    });
    let mut buf = [0u8; 64];
    assert_eq!(odd.to_slice(&mut buf), Err(Error::InvalidString));
    assert_eq!(buf[17], 1);

    let bad_marker = [b'X', b'R', b'C', b'E', 1, 0, 1, 15, 1, 2, 3, 4, 0x81, 2, 0, 1];
    assert_eq!(
        CREATE_CLIENT_Payload::<1>::from_slice(&bad_marker),
        Err(Error::InvalidBoolEncoding(2))
    );
}
