use dns_resolver::bytepacketbuffer::BytePacketBuffer;
use dns_resolver::error::CodecError;

fn buffer_with(octets: &[u8]) -> BytePacketBuffer {
    let mut buffer = BytePacketBuffer::new();
    buffer.buf[..octets.len()].copy_from_slice(octets);
    buffer
}

#[test]
fn new_buffer_is_zeroed() {
    let buffer = BytePacketBuffer::new();
    assert_eq!(buffer.pos(), 0);
    assert!(buffer.buf.iter().all(|b| *b == 0));
}

#[test]
fn step_and_seek_stay_inside() {
    let mut buffer = BytePacketBuffer::new();
    assert_eq!(buffer.step(500), Ok(()));
    assert_eq!(buffer.pos(), 500);
    assert_eq!(buffer.step(12), Ok(()));
    assert_eq!(buffer.pos(), 512);
    assert_eq!(buffer.step(1), Err(()));
    assert_eq!(buffer.pos(), 512);
    assert_eq!(buffer.seek(513), Err(()));
    assert_eq!(buffer.pos(), 512);
    assert_eq!(buffer.seek(7), Ok(()));
    assert_eq!(buffer.pos(), 7);
    assert_eq!(buffer.step(usize::MAX), Err(()));
    assert_eq!(buffer.pos(), 7);
}

#[test]
fn read_fails_at_end_of_buffer() {
    let mut buffer = BytePacketBuffer::new();
    buffer.buf[511] = 0xAB;
    buffer.seek(511).unwrap();
    assert_eq!(buffer.read(), Ok(0xAB));
    assert_eq!(buffer.pos(), 512);
    assert_eq!(buffer.read(), Err(CodecError::EndOfBuffer));
    assert_eq!(buffer.pos(), 512);
}

#[test]
fn get_and_get_range_reach_the_last_octet() {
    let mut buffer = BytePacketBuffer::new();
    buffer.buf[510] = 1;
    buffer.buf[511] = 2;
    assert_eq!(buffer.get(511), Ok(2));
    assert_eq!(buffer.get(512), Err(CodecError::EndOfBuffer));
    assert_eq!(buffer.get_range(510, 2), Ok(&[1u8, 2u8][..]));
    assert_eq!(buffer.get_range(510, 3), Err(CodecError::EndOfBuffer));
    assert_eq!(buffer.get_range(512, 0), Ok(&[][..]));
    assert_eq!(buffer.get_range(513, 0), Err(CodecError::EndOfBuffer));
    assert_eq!(buffer.get_range(1, usize::MAX), Err(CodecError::EndOfBuffer));
    assert_eq!(buffer.pos(), 0);
}

#[test]
fn u8_round_trip() {
    for v in [0u8, 1, 0x7F, 0x80, 0xFF] {
        let mut buffer = BytePacketBuffer::new();
        buffer.write_u8(v).unwrap();
        assert_eq!(buffer.pos(), 1);
        buffer.seek(0).unwrap();
        assert_eq!(buffer.read(), Ok(v));
        assert_eq!(buffer.pos(), 1);
    }
}

#[test]
fn u16_round_trip() {
    for v in [0u16, 1, 0xFF, 0x100, 0x1A2B, 0xFFFF] {
        let mut buffer = BytePacketBuffer::new();
        buffer.seek(9).unwrap();
        buffer.write_u16(v).unwrap();
        assert_eq!(buffer.pos(), 11);
        buffer.seek(9).unwrap();
        assert_eq!(buffer.read_u16(), Ok(v));
        assert_eq!(buffer.pos(), 11);
    }
}

#[test]
fn u32_round_trip() {
    for v in [0u32, 1, 0xFFFF, 0x10000, 0xDEADBEEF, 0xFFFFFFFF] {
        let mut buffer = BytePacketBuffer::new();
        buffer.write_u32(v).unwrap();
        assert_eq!(buffer.pos(), 4);
        buffer.seek(0).unwrap();
        assert_eq!(buffer.read_u32(), Ok(v));
        assert_eq!(buffer.pos(), 4);
    }
}

#[test]
fn integers_are_big_endian() {
    let mut buffer = BytePacketBuffer::new();
    buffer.write_u16(0x1A2B).unwrap();
    buffer.write_u32(0x01020304).unwrap();
    assert_eq!(&buffer.buf[..6], &[0x1A, 0x2B, 1, 2, 3, 4]);
    let mut buffer = buffer_with(&[0x12, 0x34, 0xDE, 0xAD, 0xBE, 0xEF]);
    assert_eq!(buffer.read_u16(), Ok(0x1234));
    assert_eq!(buffer.read_u32(), Ok(0xDEADBEEF));
}

#[test]
fn wide_reads_and_writes_are_all_or_nothing() {
    let mut buffer = BytePacketBuffer::new();
    buffer.seek(511).unwrap();
    assert_eq!(buffer.write_u16(0xFFFF), Err(CodecError::EndOfBuffer));
    assert_eq!(buffer.buf[511], 0);
    assert_eq!(buffer.pos(), 511);
    assert_eq!(buffer.read_u16(), Err(CodecError::EndOfBuffer));
    assert_eq!(buffer.pos(), 511);
    buffer.seek(509).unwrap();
    assert_eq!(buffer.write_u32(0xFFFFFFFF), Err(CodecError::EndOfBuffer));
    assert_eq!(&buffer.buf[509..], &[0, 0, 0]);
    assert_eq!(buffer.read_u32(), Err(CodecError::EndOfBuffer));
    assert_eq!(buffer.pos(), 509);
    buffer.seek(508).unwrap();
    assert_eq!(buffer.write_u32(0x01020304), Ok(()));
    assert_eq!(buffer.pos(), 512);
    assert_eq!(buffer.write(9), Err(CodecError::EndOfBuffer));
    assert_eq!(buffer.write_u8(9), Err(CodecError::EndOfBuffer));
}

#[test]
fn write_octets_is_all_or_nothing() {
    let mut buffer = BytePacketBuffer::new();
    buffer.seek(510).unwrap();
    assert_eq!(buffer.write_octets(&[1, 2, 3]), Err(CodecError::EndOfBuffer));
    assert_eq!(&buffer.buf[510..], &[0, 0]);
    assert_eq!(buffer.pos(), 510);
    assert_eq!(buffer.write_octets(&[1, 2]), Ok(()));
    assert_eq!(&buffer.buf[510..], &[1, 2]);
    assert_eq!(buffer.pos(), 512);
    assert_eq!(buffer.write_octets(&[]), Ok(()));
}

#[test]
fn set_and_set_u16_leave_the_cursor() {
    let mut buffer = BytePacketBuffer::new();
    buffer.seek(100).unwrap();
    assert_eq!(buffer.set(3, 0x7E), Ok(()));
    assert_eq!(buffer.set_u16(10, 0xBEEF), Ok(()));
    assert_eq!(buffer.pos(), 100);
    assert_eq!(buffer.buf[3], 0x7E);
    assert_eq!(&buffer.buf[10..12], &[0xBE, 0xEF]);
    assert_eq!(buffer.set(512, 1), Err(()));
    assert_eq!(buffer.set_u16(511, 0xFFFF), Err(()));
    assert_eq!(buffer.buf[511], 0);
    assert_eq!(buffer.set_u16(510, 0x0102), Ok(()));
    assert_eq!(&buffer.buf[510..], &[1, 2]);
}

#[test]
fn write_qname_splits_on_dots() {
    let mut buffer = BytePacketBuffer::new();
    buffer.write_qname("www.example.com").unwrap();
    assert_eq!(buffer.pos(), 17);
    assert_eq!(
        &buffer.buf[..17],
        &[3, b'w', b'w', b'w', 7, b'e', b'x', b'a', b'm', b'p', b'l', b'e', 3, b'c', b'o', b'm', 0]
    );
}

#[test]
fn write_qname_keeps_case_and_empty_labels() {
    let mut buffer = BytePacketBuffer::new();
    buffer.write_qname("A..b").unwrap();
    assert_eq!(&buffer.buf[..7], &[1, b'A', 0, 1, b'b', 0, 0]);
    assert_eq!(buffer.pos(), 6);
    let mut buffer = BytePacketBuffer::new();
    buffer.write_qname("").unwrap();
    assert_eq!(buffer.pos(), 2);
    assert_eq!(&buffer.buf[..2], &[0, 0]);
}

#[test]
fn write_qname_rejects_long_labels() {
    let long = "a".repeat(64);
    let mut buffer = BytePacketBuffer::new();
    assert_eq!(buffer.write_qname(&long), Err(CodecError::LabelTooLong));
    assert_eq!(buffer.pos(), 0);
    assert!(buffer.buf.iter().all(|b| *b == 0));
    let name = format!("www.{}.com", long);
    assert_eq!(buffer.write_qname(&name), Err(CodecError::LabelTooLong));
    assert!(buffer.buf.iter().all(|b| *b == 0));
    let fits = "a".repeat(63);
    assert_eq!(buffer.write_qname(&fits), Ok(()));
    assert_eq!(buffer.pos(), 65);
    assert_eq!(buffer.buf[0], 63);
    assert_eq!(buffer.buf[64], 0);
    // 53 octets are not too many
    let mut buffer = BytePacketBuffer::new();
    assert_eq!(buffer.write_qname(&"b".repeat(53)), Ok(()));
}

#[test]
fn write_qname_needs_room_for_the_whole_name() {
    let mut buffer = BytePacketBuffer::new();
    buffer.seek(500).unwrap();
    assert_eq!(buffer.write_qname("example.com"), Err(CodecError::EndOfBuffer));
    assert_eq!(buffer.pos(), 500);
    assert!(buffer.buf.iter().all(|b| *b == 0));
    buffer.seek(499).unwrap();
    assert_eq!(buffer.write_qname("example.com"), Ok(()));
    assert_eq!(buffer.pos(), 512);
    // a label that is too long is reported before the lack of room
    let mut buffer = BytePacketBuffer::new();
    buffer.seek(500).unwrap();
    assert_eq!(buffer.write_qname(&"a".repeat(64)), Err(CodecError::LabelTooLong));
}

#[test]
fn name_round_trip_lower_cases() {
    let mut buffer = BytePacketBuffer::new();
    buffer.seek(20).unwrap();
    buffer.write_qname("WWW.Example.COM").unwrap();
    let end = buffer.pos();
    buffer.seek(20).unwrap();
    let mut name = String::new();
    buffer.read_qname(&mut name).unwrap();
    assert_eq!(name, "www.example.com");
    assert_eq!(buffer.pos(), end);
    assert_eq!(end, 20 + 15 + 2);
}

#[test]
fn name_round_trip_with_longest_labels() {
    let label = "x".repeat(63);
    let name = format!("{}.{}.{}.{}", label, label, label, "y".repeat(61));
    assert_eq!(name.len(), 253);
    let mut buffer = BytePacketBuffer::new();
    buffer.write_qname(&name).unwrap();
    assert_eq!(buffer.pos(), 255);
    buffer.seek(0).unwrap();
    let mut read = String::new();
    buffer.read_qname(&mut read).unwrap();
    assert_eq!(read, name);
    assert_eq!(buffer.pos(), 255);
}

#[test]
fn read_qname_appends_to_the_text() {
    let mut buffer = buffer_with(&[2, b'a', b'b', 0]);
    let mut name = String::from("seen:");
    buffer.read_qname(&mut name).unwrap();
    assert_eq!(name, "seen:ab");
    assert_eq!(buffer.pos(), 4);
}

#[test]
fn read_qname_of_the_root_is_empty() {
    let mut buffer = buffer_with(&[0, 9, 9]);
    let mut name = String::new();
    buffer.read_qname(&mut name).unwrap();
    assert_eq!(name, "");
    assert_eq!(buffer.pos(), 1);
}

#[test]
fn pointer_decode() {
    let mut octets = vec![
        3, 0x77, 0x77, 0x77, 7, 0x65, 0x78, 0x61, 0x6D, 0x70, 0x6C, 0x65, 3, 0x63, 0x6F, 0x6D, 0,
    ];
    octets.extend_from_slice(&[0xC0, 0x04]);
    octets.resize(28, 0);
    let mut buffer = buffer_with(&octets);
    let mut first = String::new();
    buffer.read_qname(&mut first).unwrap();
    assert_eq!(first, "www.example.com");
    assert_eq!(buffer.pos(), 17);
    let mut second = String::new();
    buffer.read_qname(&mut second).unwrap();
    assert_eq!(second, "example.com");
    assert_eq!(buffer.pos(), 19);
}

#[test]
fn pointer_after_labels_moves_the_cursor_once() {
    // "mail" followed by a pointer to "example.com" at 4, which itself ends
    // in a pointer to "com" at 30.
    let mut buffer = BytePacketBuffer::new();
    buffer.buf[4..14].copy_from_slice(&[7, b'e', b'x', b'a', b'm', b'p', b'l', b'e', 0xC0, 30]);
    buffer.buf[30..35].copy_from_slice(&[3, b'c', b'o', b'm', 0]);
    buffer.buf[40..47].copy_from_slice(&[4, b'm', b'a', b'i', b'l', 0xC0, 4]);
    buffer.seek(40).unwrap();
    let mut name = String::new();
    buffer.read_qname(&mut name).unwrap();
    assert_eq!(name, "mail.example.com");
    assert_eq!(buffer.pos(), 47);
}

#[test]
fn pointer_to_itself_is_rejected() {
    let mut buffer = buffer_with(&[0xC0, 0x00]);
    let mut name = String::from("kept");
    assert_eq!(buffer.read_qname(&mut name), Err(CodecError::TooManyJumps));
    assert_eq!(name, "kept");
    assert_eq!(buffer.pos(), 0);
}

#[test]
fn pointer_cycle_of_two_is_rejected() {
    let mut buffer = buffer_with(&[1, b'a', 0xC0, 0x06, 0, 0, 1, b'b', 0xC0, 0x00]);
    let mut name = String::new();
    assert_eq!(buffer.read_qname(&mut name), Err(CodecError::TooManyJumps));
    assert_eq!(name, "");
    assert_eq!(buffer.pos(), 0);
}

#[test]
fn five_pointers_are_followed_and_six_are_not() {
    // a chain of pointers at 0, 2, 4, ... each to the next; the name "a" is at 100
    let mut buffer = BytePacketBuffer::new();
    for k in 0..6 {
        buffer.buf[2 * k] = 0xC0;
        buffer.buf[2 * k + 1] = (2 * k + 2) as u8;
    }
    buffer.buf[11] = 100;
    buffer.buf[100] = 1;
    buffer.buf[101] = b'a';
    buffer.seek(2).unwrap();
    let mut name = String::new();
    assert_eq!(buffer.read_qname(&mut name), Ok(()));
    assert_eq!(name, "a");
    assert_eq!(buffer.pos(), 4);
    buffer.seek(0).unwrap();
    let mut name = String::new();
    assert_eq!(buffer.read_qname(&mut name), Err(CodecError::TooManyJumps));
    assert_eq!(buffer.pos(), 0);
}

#[test]
fn pointer_out_of_the_buffer_is_rejected() {
    // 0xC2 0x00 points at 512
    let mut buffer = buffer_with(&[0xC2, 0x00]);
    let mut name = String::new();
    assert_eq!(buffer.read_qname(&mut name), Err(CodecError::EndOfBuffer));
    let mut buffer = buffer_with(&[0xFF, 0xFF]);
    assert_eq!(buffer.read_qname(&mut name), Err(CodecError::EndOfBuffer));
    // a pointer whose second octet is missing
    let mut buffer = BytePacketBuffer::new();
    buffer.buf[511] = 0xC0;
    buffer.seek(511).unwrap();
    assert_eq!(buffer.read_qname(&mut name), Err(CodecError::EndOfBuffer));
    assert_eq!(buffer.pos(), 511);
    // a pointer that ends with the buffer can be followed
    let mut buffer = BytePacketBuffer::new();
    buffer.buf[510] = 0xC0;
    buffer.buf[511] = 0x00;
    buffer.seek(510).unwrap();
    assert_eq!(buffer.read_qname(&mut name), Ok(()));
    assert_eq!(buffer.pos(), 512);
    assert_eq!(name, "");
}

#[test]
fn label_past_the_buffer_is_rejected() {
    let mut buffer = BytePacketBuffer::new();
    buffer.buf[508] = 4;
    buffer.seek(508).unwrap();
    let mut name = String::new();
    assert_eq!(buffer.read_qname(&mut name), Err(CodecError::EndOfBuffer));
    assert_eq!(buffer.pos(), 508);
    // a name that is never ended
    buffer.buf[508] = 3;
    buffer.buf[509] = b'a';
    buffer.buf[510] = b'b';
    buffer.buf[511] = b'c';
    assert_eq!(buffer.read_qname(&mut name), Err(CodecError::EndOfBuffer));
    assert_eq!(name, "");
}

#[test]
fn length_octet_over_63_is_rejected() {
    for len in [64u8, 0x80, 0xBF] {
        let mut buffer = buffer_with(&[len, b'a']);
        let mut name = String::new();
        assert_eq!(buffer.read_qname(&mut name), Err(CodecError::LabelTooLong));
        assert_eq!(buffer.pos(), 0);
    }
}

#[test]
fn labels_beyond_ascii_are_read_as_utf8_and_lower_cased() {
    // "É" in UTF-8, then an octet that is no UTF-8 at all
    let mut buffer = buffer_with(&[2, 0xC3, 0x89, 1, 0xFF, 1, b'Z', 0]);
    let mut name = String::new();
    buffer.read_qname(&mut name).unwrap();
    assert_eq!(name, "\u{e9}.\u{fffd}.z");
    assert_eq!(buffer.pos(), 8);
}
