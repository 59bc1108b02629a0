use dns_codec::message::{encode_domain, extract_forwarded_answer, forward_query, Message};
use dns_codec::parser::{expand_name, ParseError};

#[test]
fn test_new_and_header_fields() {
    let mut m = Message::new();
    assert_eq!(m.to_vec(), vec![0u8; 12]);
    m.set_id(0xD752);
    assert_eq!(m.id(), 0xD752);
    assert_eq!(&m.to_vec()[..2], &[0xD7, 0x52]);
    assert_eq!(m.opcode(), 0);
    assert_eq!(m.rd(), 0);
    m.set_response();
    assert_eq!(m.to_vec()[2], 0x80);
    m.set_query();
    assert_eq!(m.to_vec()[2], 0x00);
    m.set_rcode(3);
    assert_eq!(m.rcode(), 3);
}

#[test]
fn test_opcode_and_rd_bits() {
    // byte 2 = 0b1111_1001: response bit, opcode 0b1111, rd set
    let m = Message::from(&[0, 0, 0b1111_1001, 0, 0, 0, 0, 0, 0, 0, 0, 0][..]);
    assert_eq!(m.opcode(), 0b1111);
    assert_eq!(m.rd(), 1);
    let m = Message::from(&[0, 0, 0b1000_1000, 0, 0, 0, 0, 0, 0, 0, 0, 0][..]);
    assert_eq!(m.opcode(), 1);
    assert_eq!(m.rd(), 0);
}

#[test]
fn test_counts_after_appends() {
    let mut m = Message::new();
    assert_eq!(m.question_count(), 0);
    assert_eq!(m.answer_count(), 0);
    m.add_question(b"\x03abc\0\0\x01\0\x01");
    m.add_question(b"\x03def\0\0\x01\0\x01");
    assert_eq!(m.question_count(), 2);
    assert_eq!(m.answer_count(), 0);
    m.add_answer(b"\x03abc\0\0\x01\0\x01\0\0\0\x3c\0\x04\x08\x08\x08\x08");
    m.add_answer(b"\x03def\0\0\x01\0\x01\0\0\0\x3c\0\x04\x08\x08\x08\x08");
    m.add_answer(b"\x03ghi\0\0\x01\0\x01\0\0\0\x3c\0\x04\x08\x08\x08\x08");
    assert_eq!(m.question_count(), 2);
    assert_eq!(m.answer_count(), 3);
}

#[test]
fn test_rcode_set_preserves_upper_nibble() {
    // byte 3 starts with an arbitrary upper nibble, 0xA
    let mut m = Message::from(&[0, 0, 0, 0xA5, 0, 0, 0, 0, 0, 0, 0, 0][..]);
    m.set_rcode(0xF);
    assert_eq!(m.to_vec()[3], 0xAF);
    assert_eq!(m.rcode(), 0xF);
    m.set_rcode(0x0);
    assert_eq!(m.to_vec()[3], 0xA0);
    assert_eq!(m.rcode(), 0x0);
}

#[test]
fn test_expanded_questions_single() {
    let i = b"\xd7R\x01\0\0\x01\0\0\0\0\0\0\x0ccodecrafters\x02io\0\0\x01\0\x01";
    let m = Message::from(&i[..]);
    let qs = m.expanded_questions().unwrap();
    assert_eq!(qs.len(), 1);
    assert_eq!(qs[0].as_slice(), b"\x0ccodecrafters\x02io\0\0\x01\0\x01");
    // the question spans bytes 12..12+17+4 of the packet
    assert_eq!(i.len(), 12 + 17 + 4);
}

#[test]
fn test_shared_suffix_two_questions() {
    let i = b"\xfc=\x01\0\0\x02\0\0\0\0\0\0\x03abc\x11longassdomainname\x03com\0\0\x01\0\x01\x03def\xc0\x10\0\x01\0\x01";
    let m = Message::from(&i[..]);
    let qs = m.expanded_questions().unwrap();
    assert_eq!(qs.len(), 2);
    // both names are one fresh label, then the same spelled-out suffix
    assert_eq!(&qs[0][..4], b"\x03abc");
    assert_eq!(&qs[1][..4], b"\x03def");
    assert_eq!(qs[0][4..], qs[1][4..]);
    assert_eq!(
        qs[1].as_slice(),
        b"\x03def\x11longassdomainname\x03com\0\0\x01\0\x01"
    );
}

#[test]
fn test_answer_question_bytes() {
    let mut m = Message::new();
    let q = b"\x03abc\0\0\x01\0\x01";
    m.answer_question(q, 60, &[8, 8, 8, 8]);
    assert_eq!(m.answer_count(), 1);
    let mut expected = vec![0u8; 12];
    expected[7] = 1;
    expected.extend_from_slice(q);
    expected.extend_from_slice(&[0, 0, 0, 60, 0, 4, 8, 8, 8, 8]);
    assert_eq!(m.to_vec(), expected);
}

#[test]
fn test_forward_query_subpacket() {
    let header = [0x12, 0x34, 0x01, 0, 0, 2, 0, 0, 0, 0, 0, 0];
    let q = b"\x03abc\0\0\x01\0\x01";
    let m = forward_query(&header, q);
    let mut expected = vec![0x12, 0x34, 0x01, 0, 0, 1, 0, 0, 0, 0, 0, 0];
    expected.extend_from_slice(q);
    assert_eq!(m.to_vec(), expected);
    assert_eq!(m.question_count(), 1);
    assert_eq!(m.answer_count(), 0);
}

#[test]
fn test_extract_forwarded_answer() {
    let mut reply = vec![0x12, 0x34, 0x81, 0, 0, 1, 0, 1, 0, 0, 0, 0];
    reply.extend_from_slice(b"\x03abc\0\0\x01\0\x01");
    reply.extend_from_slice(b"\x03abc\0\0\x01\0\x01\0\0\0\x3c\0\x04\x08\x08\x08\x08");
    let a = extract_forwarded_answer(&reply).unwrap();
    assert_eq!(
        a.as_slice(),
        b"\x03abc\0\0\x01\0\x01\0\0\0\x3c\0\x04\x08\x08\x08\x08"
    );
    // a reply whose answer name is compressed against the reply itself
    let mut reply = vec![0x12, 0x34, 0x81, 0, 0, 1, 0, 1, 0, 0, 0, 0];
    reply.extend_from_slice(b"\x03abc\0\0\x01\0\x01");
    reply.extend_from_slice(b"\xc0\x0c\0\x01\0\x01\0\0\0\x3c\0\x04\x08\x08\x08\x08");
    let a = extract_forwarded_answer(&reply).unwrap();
    assert_eq!(
        a.as_slice(),
        b"\x03abc\0\0\x01\0\x01\0\0\0\x3c\0\x04\x08\x08\x08\x08"
    );
    assert!(extract_forwarded_answer(b"\x12\x34").is_err());
}

#[test]
fn test_forwarder_failure_keeps_first_answer() {
    let mut i = vec![0x12, 0x34, 0x01, 0, 0, 2, 0, 0, 0, 0, 0, 0];
    i.extend_from_slice(b"\x03abc\0\0\x01\0\x01");
    i.extend_from_slice(b"\x03def\0\0\x01\0\x01");
    let mut m = Message::from(&i[..]);
    let qs = m.expanded_questions().unwrap();
    assert_eq!(qs.len(), 2);
    // the upstream round trip succeeds for the first question
    let mut reply = vec![0x12, 0x34, 0x81, 0, 0, 1, 0, 1, 0, 0, 0, 0];
    reply.extend_from_slice(b"\x03abc\0\0\x01\0\x01");
    reply.extend_from_slice(b"\x03abc\0\0\x01\0\x01\0\0\0\x3c\0\x04\x08\x08\x08\x08");
    let a1 = extract_forwarded_answer(&reply).unwrap();
    m.add_answer(&a1);
    let snapshot = m.to_vec();
    assert_eq!(m.answer_count(), 1);
    // the round trip for the second question yields a malformed reply
    assert_eq!(
        extract_forwarded_answer(b"\x12\x34"),
        Err(ParseError::Incomplete)
    );
    // nothing of the failed question was written; the first answer stands
    assert_eq!(m.to_vec(), snapshot);
    assert_eq!(m.answer_count(), 1);
    let mut expected = vec![0x12, 0x34, 0x01, 0, 0, 2, 0, 1, 0, 0, 0, 0];
    expected.extend_from_slice(b"\x03abc\0\0\x01\0\x01");
    expected.extend_from_slice(b"\x03def\0\0\x01\0\x01");
    expected.extend_from_slice(b"\x03abc\0\0\x01\0\x01\0\0\0\x3c\0\x04\x08\x08\x08\x08");
    assert_eq!(m.to_vec(), expected);
}

#[test]
fn test_finalize_response() {
    let mut m = Message::from(&[0, 0, 0x01, 0x70, 0, 0, 0, 0, 0, 0, 0, 0][..]);
    m.finalize_response();
    // opcode 0: response bit set, rcode 0, reserved bits of byte 3 kept
    assert_eq!(m.to_vec()[2], 0x81);
    assert_eq!(m.to_vec()[3], 0x70);
    let mut m = Message::from(&[0, 0, 0x08, 0x70, 0, 0, 0, 0, 0, 0, 0, 0][..]);
    m.finalize_response();
    // opcode 1: response bit set, rcode 4
    assert_eq!(m.to_vec()[2], 0x88);
    assert_eq!(m.to_vec()[3], 0x74);
}

#[test]
fn test_encode_domain() {
    assert_eq!(
        encode_domain("codecrafters.io").unwrap(),
        b"\x0ccodecrafters\x02io\0".to_vec()
    );
    assert_eq!(encode_domain("abc").unwrap(), b"\x03abc\0".to_vec());
    // empty chunks between dots are dropped
    assert_eq!(encode_domain("a..b").unwrap(), b"\x01a\x01b\0".to_vec());
    assert_eq!(encode_domain("").unwrap(), vec![0]);
    // a label longer than 63 bytes cannot be encoded
    let long = "a".repeat(64);
    assert_eq!(encode_domain(&long), None);
    let just_fits = "a".repeat(63);
    let mut expected = vec![63u8];
    expected.extend_from_slice(just_fits.as_bytes());
    expected.push(0);
    assert_eq!(encode_domain(&just_fits).unwrap(), expected);
}

#[test]
fn test_encode_expand_roundtrip() {
    let enc = encode_domain("codecrafters.io").unwrap();
    let expanded = expand_name(&enc, 0).unwrap();
    assert_eq!(expanded, enc);
}

#[test]
fn test_pointer_chain_resolves_transitively() {
    let mut p = vec![0u8; 12];
    p.extend_from_slice(b"\x03abc\0"); // name at 12
    p.extend_from_slice(&[0xC0, 12]); // pointer at 17 -> 12
    p.extend_from_slice(&[0xC0, 17]); // pointer at 19 -> 17
    let direct = expand_name(&p, 12).unwrap();
    assert_eq!(direct.as_slice(), b"\x03abc\0");
    assert_eq!(expand_name(&p, 17).unwrap(), direct);
    assert_eq!(expand_name(&p, 19).unwrap(), direct);
}

#[test]
fn test_expand_error_variants() {
    // input ends inside a label
    assert_eq!(expand_name(b"\x05ab", 0), Err(ParseError::Incomplete));
    // a byte with the reserved 01 top bits is no token
    assert_eq!(expand_name(b"\x40a", 0), Err(ParseError::BadToken));
    // a pointer that points at itself never resolves
    let mut p = vec![0u8; 12];
    p.extend_from_slice(&[0xC0, 12]);
    assert_eq!(expand_name(&p, 12), Err(ParseError::TooManyPointers));
}

#[test]
fn test_original_questions_raw() {
    let i = b"\xfc=\x01\0\0\x02\0\0\0\0\0\0\x03abc\x11longassdomainname\x03com\0\0\x01\0\x01\x03def\xc0\x10\0\x01\0\x01";
    let m = Message::from(&i[..]);
    let qs = m.original_questions().unwrap();
    assert_eq!(qs.len(), 2);
    assert_eq!(
        qs[0].as_slice(),
        b"\x03abc\x11longassdomainname\x03com\0\0\x01\0\x01"
    );
    // the second question's raw form keeps its pointer bytes
    assert_eq!(qs[1].as_slice(), b"\x03def\xc0\x10\0\x01\0\x01");
    let qs2 = m.questions().unwrap();
    assert_eq!(qs, qs2);
}
