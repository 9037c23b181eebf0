use wayland_wire::byte_order::ByteOrder;
use wayland_wire::frame::{FrameHeader, ReadError, HEADER_LEN, MAX_ARGS};
use wayland_wire::message::Message;
use wayland_wire::reader::Reader;

fn sample() -> Message {
    Message { object: 0x0102_0304, opcode: 0x0a0b, args: vec![0x1122_3344] }
}

#[test]
fn send_little_endian_bytes() {
    let mut out = Vec::new();
    sample().send(&mut out, ByteOrder::Little);
    assert_eq!(
        out,
        vec![0x04, 0x03, 0x02, 0x01, 0x0b, 0x0a, 0x0c, 0x00, 0x44, 0x33, 0x22, 0x11]
    );
}

#[test]
fn send_big_endian_bytes() {
    let mut out = Vec::new();
    sample().send(&mut out, ByteOrder::Big);
    assert_eq!(
        out,
        vec![0x01, 0x02, 0x03, 0x04, 0x00, 0x0c, 0x0a, 0x0b, 0x11, 0x22, 0x33, 0x44]
    );
}

#[test]
fn send_native_bytes_are_memory_bytes() {
    let m = sample();
    let mut expected = Vec::new();
    expected.extend_from_slice(&m.object.to_ne_bytes());
    expected.extend_from_slice(&((12u32 << 16) | 0x0a0b).to_ne_bytes());
    expected.extend_from_slice(&0x1122_3344u32.to_ne_bytes());
    let mut out = Vec::new();
    m.send(&mut out, ByteOrder::native());
    assert_eq!(out, expected);
}

#[test]
fn send_appends_to_what_is_there() {
    let mut out = vec![0xaa, 0xbb];
    Message { object: 1, opcode: 2, args: vec![] }.send(&mut out, ByteOrder::Little);
    assert_eq!(out, vec![0xaa, 0xbb, 1, 0, 0, 0, 2, 0, 8, 0]);
}

#[test]
fn send_without_args_declares_header_length() {
    let mut out = Vec::new();
    Message { object: 0, opcode: 0xffff, args: vec![] }.send(&mut out, ByteOrder::Big);
    assert_eq!(out, vec![0, 0, 0, 0, 0, 8, 0xff, 0xff]);
}

#[test]
fn read_little_endian_bytes() {
    let bytes = [0x04, 0x03, 0x02, 0x01, 0x0b, 0x0a, 0x0c, 0x00, 0x44, 0x33, 0x22, 0x11];
    let mut reader = Reader::new(&bytes);
    assert_eq!(Message::read(&mut reader, ByteOrder::Little), Ok(sample()));
    assert_eq!(reader.remaining(), 0);
}

#[test]
fn read_big_endian_bytes() {
    let bytes = [0x01, 0x02, 0x03, 0x04, 0x00, 0x0c, 0x0a, 0x0b, 0x11, 0x22, 0x33, 0x44];
    let mut reader = Reader::new(&bytes);
    assert_eq!(Message::read(&mut reader, ByteOrder::Big), Ok(sample()));
    assert_eq!(reader.remaining(), 0);
}

#[test]
fn round_trip_in_either_order() {
    for order in [ByteOrder::Little, ByteOrder::Big, ByteOrder::native()] {
        let message = Message {
            object: 0xfeed_f00d,
            opcode: 0x8001,
            args: vec![0, 1, u32::MAX, 0x8000_0000, 0x0000_ffff],
        };
        let mut bytes = Vec::new();
        message.clone().send(&mut bytes, order);
        assert_eq!(bytes.len(), 8 + 4 * 5);
        let mut reader = Reader::new(&bytes);
        assert_eq!(Message::read(&mut reader, order), Ok(message));
        assert_eq!(reader.remaining(), 0);
    }
}

#[test]
fn round_trip_without_args() {
    let message = Message { object: 3, opcode: 0, args: vec![] };
    let mut bytes = Vec::new();
    message.clone().send(&mut bytes, ByteOrder::Big);
    assert_eq!(bytes.len(), 8);
    let mut reader = Reader::new(&bytes);
    assert_eq!(Message::read(&mut reader, ByteOrder::Big), Ok(message));
}

#[test]
fn round_trip_of_the_longest_message() {
    let args: Vec<u32> = (0..MAX_ARGS as u32).map(|i| i.wrapping_mul(0x9e37_79b9)).collect();
    let message = Message { object: 1, opcode: 2, args };
    let mut bytes = Vec::new();
    message.clone().send(&mut bytes, ByteOrder::Little);
    assert_eq!(bytes.len(), 65532);
    assert_eq!(&bytes[4..8], &[2, 0, 0xfc, 0xff]);
    let mut reader = Reader::new(&bytes);
    assert_eq!(Message::read(&mut reader, ByteOrder::Little), Ok(message));
    assert_eq!(reader.remaining(), 0);
}

#[test]
fn length_of_an_overlong_message_is_cut() {
    let message = Message { object: 1, opcode: 2, args: vec![0; MAX_ARGS + 1] };
    let mut bytes = Vec::new();
    message.send(&mut bytes, ByteOrder::Little);
    assert_eq!(bytes.len(), 65536);
    assert_eq!(&bytes[4..8], &[2, 0, 0, 0]);
    let mut reader = Reader::new(&bytes);
    assert_eq!(Message::read(&mut reader, ByteOrder::Little), Err(ReadError::InvalidData));

    let message = Message { object: 1, opcode: 2, args: vec![0; MAX_ARGS + 2] };
    let mut bytes = Vec::new();
    message.send(&mut bytes, ByteOrder::Little);
    assert_eq!(&bytes[4..8], &[2, 0, 4, 0]);
    let mut reader = Reader::new(&bytes);
    assert_eq!(Message::read(&mut reader, ByteOrder::Little), Err(ReadError::InvalidData));
}

#[test]
fn read_two_messages_in_a_row() {
    let first = Message { object: 1, opcode: 1, args: vec![10, 11] };
    let second = Message { object: 2, opcode: 2, args: vec![] };
    let mut bytes = Vec::new();
    first.clone().send(&mut bytes, ByteOrder::Big);
    second.clone().send(&mut bytes, ByteOrder::Big);
    bytes.push(0x55);
    let mut reader = Reader::new(&bytes);
    assert_eq!(Message::read(&mut reader, ByteOrder::Big), Ok(first));
    assert_eq!(reader.remaining(), 9);
    assert_eq!(Message::read(&mut reader, ByteOrder::Big), Ok(second));
    assert_eq!(reader.remaining(), 1);
    assert_eq!(Message::read(&mut reader, ByteOrder::Big), Err(ReadError::UnexpectedEof));
    assert_eq!(reader.remaining(), 0);
}

#[test]
fn read_refuses_length_that_is_no_multiple_of_four() {
    for size in [9u8, 10, 11, 13] {
        let bytes = [1, 0, 0, 0, 7, 0, size, 0, 0xaa, 0xbb, 0xcc, 0xdd, 0xee, 0xff];
        let mut reader = Reader::new(&bytes);
        assert_eq!(Message::read(&mut reader, ByteOrder::Little), Err(ReadError::InvalidData));
        assert_eq!(reader.remaining(), 6);
        assert_eq!(reader.take(6), Some(&bytes[8..]));
    }
}

#[test]
fn read_refuses_length_below_header() {
    for size in [0u8, 4] {
        let bytes = [0, 0, 0, 1, 0, size, 0, 7, 0xaa, 0xbb, 0xcc, 0xdd];
        let mut reader = Reader::new(&bytes);
        assert_eq!(Message::read(&mut reader, ByteOrder::Big), Err(ReadError::InvalidData));
        assert_eq!(reader.remaining(), 4);
    }
}

#[test]
fn read_fails_on_short_header() {
    for len in 0..8usize {
        let bytes = [1u8, 0, 0, 0, 2, 0, 8, 0];
        let mut reader = Reader::new(&bytes[..len]);
        assert_eq!(Message::read(&mut reader, ByteOrder::Little), Err(ReadError::UnexpectedEof));
        assert_eq!(reader.remaining(), 0);
    }
}

#[test]
fn read_fails_on_short_body() {
    let bytes = [1u8, 0, 0, 0, 2, 0, 16, 0, 1, 2, 3, 4, 5, 6, 7];
    let mut reader = Reader::new(&bytes);
    assert_eq!(Message::read(&mut reader, ByteOrder::Little), Err(ReadError::UnexpectedEof));
    assert_eq!(reader.remaining(), 0);
}

#[test]
fn read_in_the_other_order_sees_another_header() {
    let mut bytes = Vec::new();
    Message { object: 1, opcode: 2, args: vec![] }.send(&mut bytes, ByteOrder::Little);
    let mut reader = Reader::new(&bytes);
    // bytes 02 00 08 00 read most significant first: length 0x0200, opcode 0x0800
    assert_eq!(Message::read(&mut reader, ByteOrder::Big), Err(ReadError::UnexpectedEof));
}

#[test]
fn header_parse_accepts_valid_length() {
    let bytes = [0x04, 0x03, 0x02, 0x01, 0x0b, 0x0a, 0x0c, 0x00];
    assert_eq!(
        FrameHeader::parse(&bytes, ByteOrder::Little),
        Ok(FrameHeader { object: 0x0102_0304, opcode: 0x0a0b, size: 12 })
    );
    let header = FrameHeader::parse(&bytes, ByteOrder::Little).unwrap();
    assert_eq!(header.body_len(), 4);
}

#[test]
fn header_parse_reports_each_failure() {
    assert_eq!(HEADER_LEN, 8);
    assert_eq!(
        FrameHeader::parse(&[0, 0, 0, 0, 0, 0, 0], ByteOrder::Big),
        Err(ReadError::UnexpectedEof)
    );
    assert_eq!(
        FrameHeader::parse(&[0, 0, 0, 0, 0, 7, 0, 0], ByteOrder::Big),
        Err(ReadError::InvalidData)
    );
    assert_eq!(
        FrameHeader::parse(&[0, 0, 0, 0, 0, 14, 0, 0], ByteOrder::Big),
        Err(ReadError::InvalidData)
    );
    assert_eq!(
        FrameHeader::parse(&[0, 0, 0, 0, 0xff, 0xfc, 0, 0], ByteOrder::Big),
        Ok(FrameHeader { object: 0, opcode: 0, size: 0xfffc })
    );
}

#[test]
fn header_body_len_takes_the_header_off() {
    assert_eq!(FrameHeader { object: 0, opcode: 0, size: 8 }.body_len(), 0);
    assert_eq!(FrameHeader { object: 0, opcode: 0, size: 0xfffc }.body_len(), 65524);
    assert_eq!(FrameHeader { object: 0, opcode: 0, size: 4 }.body_len(), 0);
}

#[test]
fn reader_take_hands_out_the_front() {
    let bytes = [1u8, 2, 3, 4, 5];
    let mut reader = Reader::new(&bytes);
    assert_eq!(reader.remaining(), 5);
    assert_eq!(reader.take(2), Some(&bytes[..2]));
    assert_eq!(reader.remaining(), 3);
    assert_eq!(reader.take(0), Some(&bytes[..0]));
    assert_eq!(reader.take(3), Some(&bytes[2..]));
    assert_eq!(reader.remaining(), 0);
    assert_eq!(reader.take(0), Some(&bytes[..0]));
}

#[test]
fn reader_take_beyond_the_end_drains() {
    let bytes = [1u8, 2, 3];
    let mut reader = Reader::new(&bytes);
    assert_eq!(reader.take(4), None);
    assert_eq!(reader.remaining(), 0);
    assert_eq!(reader.take(1), None);
}
