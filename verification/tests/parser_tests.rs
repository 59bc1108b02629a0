use dns_codec::parser::{
    expand_question, parse_domain, parse_domains, parse_label, parse_pointer, parse_question,
    parse_terminator, DomainPart,
};

#[test]
fn test_expand_question() {
    let i = b"\xd7R\x01\0\0\x01\0\0\0\0\0\0\x0ccodecrafters\x02io\0\0\x01\0\x01";
    let (r, question) = expand_question(i, 12).unwrap();
    assert_eq!(r, i.len());
    assert_eq!(question.as_slice(), b"\x0ccodecrafters\x02io\0\0\x01\0\x01");
    let i = b"\xfc=\x01\0\0\x02\0\0\0\0\0\0\x03abc\x11longassdomainname\x03com\0\0\x01\0\x01\x03def\xc0\x10\0\x01\0\x01";
    let (r, question) = expand_question(i, 12).unwrap();
    assert_eq!(&i[r..], b"\x03def\xc0\x10\0\x01\0\x01");
    assert_eq!(
        question.as_slice(),
        b"\x03abc\x11longassdomainname\x03com\0\0\x01\0\x01"
    );
    let (r, question) = expand_question(i, r).unwrap();
    assert_eq!(r, i.len());
    assert_eq!(
        question.as_slice(),
        b"\x03def\x11longassdomainname\x03com\0\0\x01\0\x01"
    );
}

#[test]
fn test_parse_domains() {
    let mut i = Vec::from(&b"\x03abc\x02ab\0\0\x01\0\x01"[..]);
    i.extend_from_slice(b"\x04zxcv");
    i.extend_from_slice(&((0b11u16 << 14) | 36u16).to_be_bytes());
    i.extend_from_slice(b"\0\x01\0\x01");
    i.extend_from_slice(&((0b11u16 << 14) | 20u16).to_be_bytes());
    i.extend_from_slice(b"\0\x01\0\x01");
    i.push(0u8);
    i.extend_from_slice(b"\0\x01\0\x01");
    i.extend_from_slice(b"hello world");
    let (r, domains) = parse_domains(&i, 4).unwrap();
    assert_eq!(&i[r..], b"hello world");
    assert_eq!(domains.len(), 4);
    assert_eq!(domains[0].as_slice(), &i[..12]);
    assert_eq!(domains[1].as_slice(), &i[12..23]);
    assert_eq!(domains[2].as_slice(), &i[23..29]);
    assert_eq!(domains[3].as_slice(), &i[29..34]);
}

#[test]
fn test_parse_domain() {
    let mut i = Vec::from(((0b11u16 << 14) | 20u16).to_be_bytes());
    i.extend_from_slice(b"\0\x01\0\x01hello");
    let (r, domain) = parse_domain(&i).unwrap();
    assert_eq!(&i[r..], b"hello");
    assert_eq!(domain.as_slice(), &i[..6]);
    let i = b"\x03abc\x05abcde\0\0\x01\0\x01hello";
    let (r, domain) = parse_domain(i).unwrap();
    assert_eq!(&i[r..], b"hello");
    assert_eq!(domain.as_slice(), &i[..15]);
    let mut i = Vec::from(&b"\x02ab\x04abcd"[..]);
    i.extend_from_slice(&((0b11u16 << 14) | 20u16).to_be_bytes());
    i.extend_from_slice(b"\0\x01\0\x01hello");
    let (r, domain) = parse_domain(&i).unwrap();
    assert_eq!(&i[r..], b"hello");
    assert_eq!(domain.as_slice(), &i[..14]);
}

#[test]
fn test_parse_label() {
    let i = b"\x03abc";
    let (r, label) = parse_label(i).unwrap();
    assert_eq!(r, i.len());
    assert_eq!(label, DomainPart::Label(b"abc".to_vec()));
}

#[test]
fn test_parse_terminator() {
    let i = b"\0";
    let (r, terminator) = parse_terminator(i).unwrap();
    assert_eq!(r, i.len());
    assert_eq!(terminator, DomainPart::Terminator);
}

#[test]
fn test_parse_pointer() {
    let i = ((0b11u16 << 14) | (20u16)).to_be_bytes();
    let (r, ptr) = parse_pointer(&i).unwrap();
    assert_eq!(r, i.len());
    assert_eq!(ptr, DomainPart::Pointer(20));
}

#[test]
fn test_parse_question() {
    let input = b"\x04\xd2\x01\0\0\x01\0\0\0\0\0\0\x0ccodecrafters\x02io\0\0\x01\0\x01";
    let (r, question) = parse_question(&input[12..]).unwrap();
    assert_eq!(r, input[12..].len());
    assert_eq!(question.as_slice(), b"\x0ccodecrafters\x02io\0\0\x01\0\x01");
}
