use dns_resolver::address::{Ipv4, Ipv6};
use dns_resolver::bytepacketbuffer::BytePacketBuffer;
use dns_resolver::error::CodecError;
use dns_resolver::qtype::QueryType;
use dns_resolver::questions::DnsQuestion;
use dns_resolver::record::DnsRecord;

fn round_trip(record: &DnsRecord) -> (usize, DnsRecord) {
    let mut buffer = BytePacketBuffer::new();
    buffer.seek(5).unwrap();
    let written = record.write(&mut buffer).unwrap();
    assert_eq!(buffer.pos(), 5 + written);
    buffer.seek(5).unwrap();
    let read = DnsRecord::read(&mut buffer).unwrap();
    assert_eq!(buffer.pos(), 5 + written);
    (written, read)
}

#[test]
fn a_record_encode_decode() {
    let record = DnsRecord::A {
        domain: "example.com".to_string(),
        addr: Ipv4(93, 184, 216, 34),
        ttl: 3600,
    };
    let mut buffer = BytePacketBuffer::new();
    let written = record.write(&mut buffer).unwrap();
    assert_eq!(written, 13 + 10 + 4);
    assert!(written >= 16);
    assert_eq!(&buffer.buf[written - 4..written], &[0x5D, 0xB8, 0xD8, 0x22]);
    assert_eq!(
        &buffer.buf[..written],
        &[
            7, b'e', b'x', b'a', b'm', b'p', b'l', b'e', 3, b'c', b'o', b'm', 0, 0, 1, 0, 1, 0, 0,
            0x0E, 0x10, 0, 4, 0x5D, 0xB8, 0xD8, 0x22
        ]
    );
    buffer.seek(0).unwrap();
    assert_eq!(DnsRecord::read(&mut buffer), Ok(record));
    assert_eq!(buffer.pos(), written);
}

#[test]
fn mx_record_length_is_filled_in() {
    let record = DnsRecord::MX {
        domain: "example.com".to_string(),
        priority: 10,
        host: "mail.example.com".to_string(),
        ttl: 300,
    };
    let mut buffer = BytePacketBuffer::new();
    let written = record.write(&mut buffer).unwrap();
    // name 13, type 2, class 2, ttl 4, then the length at 21
    let rdlength = ((buffer.buf[21] as usize) << 8) | buffer.buf[22] as usize;
    assert_eq!(rdlength, 2 + 18);
    assert_eq!(written, 23 + rdlength);
    assert_eq!(&buffer.buf[23..25], &[0, 10]);
    assert_eq!(buffer.buf[25], 4);
    assert_eq!(&buffer.buf[13..21], &[0, 15, 0, 1, 0, 0, 1, 0x2C]);
    let (_, read) = round_trip(&record);
    assert_eq!(read, record);
}

#[test]
fn ns_and_cname_records_round_trip() {
    let ns = DnsRecord::NS {
        domain: "example.com".to_string(),
        host: "ns1.example.com".to_string(),
        ttl: 86400,
    };
    let (written, read) = round_trip(&ns);
    assert_eq!(read, ns);
    assert_eq!(written, 13 + 10 + 17);
    let cname = DnsRecord::CNAME {
        domain: "www.example.com".to_string(),
        host: "example.com".to_string(),
        ttl: 1,
    };
    let (written, read) = round_trip(&cname);
    assert_eq!(read, cname);
    assert_eq!(written, 17 + 10 + 13);
    let mut buffer = BytePacketBuffer::new();
    ns.write(&mut buffer).unwrap();
    assert_eq!(&buffer.buf[13..23], &[0, 2, 0, 1, 0, 1, 0x51, 0x80, 0, 17]);
    let mut buffer = BytePacketBuffer::new();
    cname.write(&mut buffer).unwrap();
    assert_eq!(&buffer.buf[17..27], &[0, 5, 0, 1, 0, 0, 0, 1, 0, 13]);
}

#[test]
fn aaaa_record_round_trips() {
    let record = DnsRecord::AAAA {
        domain: "example.com".to_string(),
        addr: Ipv6(0x2606, 0x2800, 0x0220, 0x0001, 0x0248, 0x1893, 0x25c8, 0x1946),
        ttl: 0xFFFFFFFF,
    };
    let mut buffer = BytePacketBuffer::new();
    let written = record.write(&mut buffer).unwrap();
    assert_eq!(written, 13 + 10 + 16);
    assert_eq!(&buffer.buf[13..23], &[0, 28, 0, 1, 0xFF, 0xFF, 0xFF, 0xFF, 0, 16]);
    assert_eq!(
        &buffer.buf[23..39],
        &[
            0x26, 0x06, 0x28, 0x00, 0x02, 0x20, 0x00, 0x01, 0x02, 0x48, 0x18, 0x93, 0x25, 0xc8,
            0x19, 0x46
        ]
    );
    let (_, read) = round_trip(&record);
    assert_eq!(read, record);
}

#[test]
fn unknown_record_is_read_past_and_not_written() {
    let mut buffer = BytePacketBuffer::new();
    buffer.buf[..20].copy_from_slice(&[
        1, b'x', 0, 0, 16, 0, 1, 0, 0, 0, 60, 0, 5, b'h', b'e', b'l', b'l', b'o', 0xAA, 0xBB,
    ]);
    let record = DnsRecord::read(&mut buffer).unwrap();
    assert_eq!(
        record,
        DnsRecord::UNKNOWN { domain: "x".to_string(), qtype: 16, data_len: 5, ttl: 60 }
    );
    assert_eq!(buffer.pos(), 18);
    let mut out = BytePacketBuffer::new();
    out.seek(3).unwrap();
    assert_eq!(record.write(&mut out), Ok(0));
    assert_eq!(out.pos(), 3);
    assert!(out.buf.iter().all(|b| *b == 0));
}

#[test]
fn unknown_record_whose_data_runs_out_of_the_buffer() {
    let mut buffer = BytePacketBuffer::new();
    buffer.seek(499).unwrap();
    buffer.buf[499..512].copy_from_slice(&[1, b'x', 0, 0, 99, 0, 1, 0, 0, 0, 60, 0, 1]);
    assert_eq!(DnsRecord::read(&mut buffer), Err(CodecError::EndOfBuffer));
    assert_eq!(buffer.pos(), 499);
    buffer.buf[511] = 0;
    assert_eq!(
        DnsRecord::read(&mut buffer),
        Ok(DnsRecord::UNKNOWN { domain: "x".to_string(), qtype: 99, data_len: 0, ttl: 60 })
    );
    assert_eq!(buffer.pos(), 512);
}

#[test]
fn record_class_and_length_are_not_checked_on_read() {
    // class 3, and a length of 9 announced for an address of four octets
    let mut buffer = BytePacketBuffer::new();
    buffer.buf[..16].copy_from_slice(&[1, b'x', 0, 0, 1, 0, 3, 0, 0, 0, 9, 0, 9, 10, 0, 0]);
    buffer.buf[16] = 1;
    let record = DnsRecord::read(&mut buffer).unwrap();
    assert_eq!(record, DnsRecord::A { domain: "x".to_string(), addr: Ipv4(10, 0, 0, 1), ttl: 9 });
    assert_eq!(buffer.pos(), 17);
}

#[test]
fn truncated_records_are_rejected_and_leave_the_cursor() {
    let record = DnsRecord::MX {
        domain: "example.com".to_string(),
        priority: 10,
        host: "mail.example.com".to_string(),
        ttl: 300,
    };
    let mut whole = BytePacketBuffer::new();
    let written = record.write(&mut whole).unwrap();
    for cut in 1..=written {
        // the record placed so that its last `cut` octets fall off the buffer
        let mut buffer = BytePacketBuffer::new();
        let start = 512 - written + cut;
        buffer.buf[start..].copy_from_slice(&whole.buf[..written - cut]);
        buffer.seek(start).unwrap();
        assert_eq!(DnsRecord::read(&mut buffer), Err(CodecError::EndOfBuffer));
        assert_eq!(buffer.pos(), start);
    }
}

#[test]
fn record_that_does_not_fit_leaves_the_buffer() {
    let record = DnsRecord::NS {
        domain: "example.com".to_string(),
        host: "ns1.example.com".to_string(),
        ttl: 5,
    };
    for start in (512 - 39)..=512 {
        let mut buffer = BytePacketBuffer::new();
        buffer.buf = [0x55; 512];
        buffer.seek(start).unwrap();
        assert_eq!(record.write(&mut buffer), Err(CodecError::EndOfBuffer));
        assert_eq!(buffer.pos(), start);
        assert!(buffer.buf.iter().all(|b| *b == 0x55));
    }
    let mut buffer = BytePacketBuffer::new();
    buffer.seek(512 - 40).unwrap();
    assert_eq!(record.write(&mut buffer), Ok(40));
    assert_eq!(buffer.pos(), 512);
}

#[test]
fn record_with_a_long_label_leaves_the_buffer() {
    let long = "a".repeat(64);
    let in_host =
        DnsRecord::CNAME { domain: "example.com".to_string(), host: long.clone(), ttl: 5 };
    let mut buffer = BytePacketBuffer::new();
    assert_eq!(in_host.write(&mut buffer), Err(CodecError::LabelTooLong));
    assert_eq!(buffer.pos(), 0);
    assert!(buffer.buf.iter().all(|b| *b == 0));
    let in_domain = DnsRecord::A { domain: long, addr: Ipv4(1, 2, 3, 4), ttl: 5 };
    assert_eq!(in_domain.write(&mut buffer), Err(CodecError::LabelTooLong));
    assert!(buffer.buf.iter().all(|b| *b == 0));
}

#[test]
fn first_failing_part_of_a_record_decides() {
    // the host has a label that is too long, but the head finds no room first
    let record =
        DnsRecord::NS { domain: "example.com".to_string(), host: "a".repeat(64), ttl: 5 };
    let mut buffer = BytePacketBuffer::new();
    buffer.seek(495).unwrap();
    assert_eq!(record.write(&mut buffer), Err(CodecError::EndOfBuffer));
    buffer.seek(0).unwrap();
    assert_eq!(record.write(&mut buffer), Err(CodecError::LabelTooLong));
}

#[test]
fn record_with_compressed_names() {
    // "example.com" at 0; an MX record at 20 whose names both point back
    let mut buffer = BytePacketBuffer::new();
    buffer.buf[..13].copy_from_slice(&[
        7, b'e', b'x', b'a', b'm', b'p', b'l', b'e', 3, b'c', b'o', b'm', 0,
    ]);
    buffer.buf[20..41].copy_from_slice(&[
        0xC0, 0, 0, 15, 0, 1, 0, 0, 0, 100, 0, 9, 0, 20, 4, b'm', b'a', b'i', b'l', 0xC0, 0,
    ]);
    buffer.seek(20).unwrap();
    let record = DnsRecord::read(&mut buffer).unwrap();
    assert_eq!(
        record,
        DnsRecord::MX {
            domain: "example.com".to_string(),
            priority: 20,
            host: "mail.example.com".to_string(),
            ttl: 100
        }
    );
    assert_eq!(buffer.pos(), 41);
}

#[test]
fn question_round_trip() {
    let mut question = DnsQuestion::new("Example.com".to_string(), QueryType::MX);
    let mut buffer = BytePacketBuffer::new();
    question.write(&mut buffer).unwrap();
    assert_eq!(buffer.pos(), 17);
    assert_eq!(&buffer.buf[13..17], &[0, 15, 0, 1]);
    buffer.seek(0).unwrap();
    let mut read = DnsQuestion::new(String::new(), QueryType::UNKNOWN(0));
    read.read(&mut buffer).unwrap();
    question.name = "example.com".to_string();
    assert_eq!(read, question);
    assert_eq!(buffer.pos(), 17);
}

#[test]
fn question_read_appends_to_the_name() {
    let mut buffer = BytePacketBuffer::new();
    buffer.buf[..7].copy_from_slice(&[1, b'a', 0, 0, 28, 0, 1]);
    let mut question = DnsQuestion::new("was:".to_string(), QueryType::A);
    question.read(&mut buffer).unwrap();
    assert_eq!(question.name, "was:a");
    assert_eq!(question.qtype, QueryType::AAAA);
}

#[test]
fn question_that_fails_changes_nothing() {
    let mut buffer = BytePacketBuffer::new();
    buffer.seek(508).unwrap();
    buffer.buf[508..512].copy_from_slice(&[1, b'a', 0, 0]);
    let mut question = DnsQuestion::new("kept".to_string(), QueryType::NS);
    assert_eq!(question.read(&mut buffer), Err(CodecError::EndOfBuffer));
    assert_eq!(question, DnsQuestion::new("kept".to_string(), QueryType::NS));
    assert_eq!(buffer.pos(), 508);
    let question = DnsQuestion::new("a".to_string(), QueryType::A);
    buffer.seek(506).unwrap();
    let before = buffer.buf;
    assert_eq!(question.write(&mut buffer), Err(CodecError::EndOfBuffer));
    assert_eq!(buffer.buf, before);
    assert_eq!(buffer.pos(), 506);
    buffer.seek(505).unwrap();
    assert_eq!(question.write(&mut buffer), Ok(()));
    assert_eq!(buffer.pos(), 512);
    let long = DnsQuestion::new("b".repeat(64), QueryType::A);
    buffer.seek(0).unwrap();
    assert_eq!(long.write(&mut buffer), Err(CodecError::LabelTooLong));
}

#[test]
fn ipv4_as_text() {
    assert_eq!(Ipv4(198, 41, 0, 4).to_string(), "198.41.0.4");
    assert_eq!(Ipv4(0, 0, 0, 0).to_string(), "0.0.0.0");
    assert_eq!(Ipv4(255, 255, 255, 255).to_string(), "255.255.255.255");
    assert_eq!(Ipv4(10, 100, 9, 99).to_string(), "10.100.9.99");
    assert_eq!(Ipv4::new(1, 20, 109, 200), Ipv4(1, 20, 109, 200));
    for n in 0..=255u8 {
        assert_eq!(Ipv4(n, 0, 0, n).to_string(), format!("{}.0.0.{}", n, n));
    }
}
