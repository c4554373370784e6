use dns_resolver::name::{all_ascii, decode_label, ends_with, name_fits, push_label};

#[test]
fn labels_are_joined_with_dots() {
    let mut name = String::new();
    push_label(&mut name, true, "www");
    assert_eq!(name, "www");
    push_label(&mut name, false, "example");
    push_label(&mut name, false, "com");
    assert_eq!(name, "www.example.com");
    push_label(&mut name, true, "");
    assert_eq!(name, "www.example.com");
    push_label(&mut name, false, "");
    assert_eq!(name, "www.example.com.");
}

#[test]
fn ascii_labels_are_lower_cased_octet_by_octet() {
    assert_eq!(decode_label(b"WwW"), "www");
    assert_eq!(decode_label(b"@AZ[`az{"), "@az[`az{");
    assert_eq!(decode_label(b"a-b_0.9"), "a-b_0.9");
    assert_eq!(decode_label(&[]), "");
    assert_eq!(decode_label(&[0, 0x7F]), "\u{0}\u{7f}");
    let every: Vec<u8> = (0..128).collect();
    let text = decode_label(&every);
    assert_eq!(text, String::from_utf8(every).unwrap().to_ascii_lowercase());
}

#[test]
fn other_labels_are_read_as_utf8() {
    // capital sigma, then a lone continuation octet
    assert_eq!(decode_label(&[0xCE, 0xA3, b'A', 0x80]), "\u{3c3}a\u{fffd}");
    assert_eq!(decode_label(&[0xFF]), "\u{fffd}");
    assert_eq!(decode_label("\u{c4}B".as_bytes()), "\u{e4}b");
}

#[test]
fn ascii_is_told_from_the_rest() {
    assert!(all_ascii(b""));
    assert!(all_ascii(b"example\x7f"));
    assert!(!all_ascii(&[b'a', 0x80]));
    assert!(!all_ascii(&[0xFF, b'a']));
}

#[test]
fn labels_of_63_octets_fit() {
    assert!(name_fits(b""));
    assert!(name_fits(b"..."));
    assert!(name_fits(b"www.example.com"));
    let edge = "a".repeat(63);
    let over = "a".repeat(64);
    assert!(name_fits(edge.as_bytes()));
    assert!(!name_fits(over.as_bytes()));
    assert!(name_fits(format!("{}.{}.{}", edge, edge, edge).as_bytes()));
    assert!(!name_fits(format!("{}.{}", edge, over).as_bytes()));
    assert!(!name_fits(format!("{}.{}", over, edge).as_bytes()));
    assert!(!name_fits(format!("x.{}.y", over).as_bytes()));
    assert!(name_fits(format!(".{}.", edge).as_bytes()));
}

#[test]
fn names_end_with_their_zones() {
    assert!(ends_with("www.example.com", "example.com"));
    assert!(ends_with("www.example.com", "com"));
    assert!(ends_with("www.example.com", ""));
    assert!(ends_with("example.com", "example.com"));
    assert!(ends_with("", ""));
    assert!(!ends_with("com", "example.com"));
    assert!(!ends_with("www.example.com", "example.org"));
    assert!(!ends_with("www.example.com", "Example.com"));
    assert!(!ends_with("www.example.com", "www"));
    // the test is on the octets, not on whole labels
    assert!(ends_with("notexample.com", "example.com"));
    assert!(ends_with("caf\u{e9}.example", "\u{e9}.example"));
}
