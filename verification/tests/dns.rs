use torrent_streaming::addr::IpAddress;
use torrent_streaming::dns::{
    encode_query, parse_response, read_u16, skip_name, DnsError, DNS_HEADER_LEN, DNS_TYPE_A,
    DNS_TYPE_AAAA,
};

/// The response to a query for `tracker.example`, with the given answers behind it.
fn response_with(record_type: u16, count: u16, answers: &[u8]) -> Vec<u8> {
    let mut packet = encode_query(0x1234, "tracker.example", record_type).unwrap();
    packet[2..4].copy_from_slice(&0x8180u16.to_be_bytes());
    packet[6..8].copy_from_slice(&count.to_be_bytes());
    packet.extend_from_slice(answers);
    packet
}

fn answer(record_type: u16, class: u16, data: &[u8]) -> Vec<u8> {
    let mut bytes = vec![0xc0, 0x0c];
    bytes.extend_from_slice(&record_type.to_be_bytes());
    bytes.extend_from_slice(&class.to_be_bytes());
    bytes.extend_from_slice(&[0, 0, 0, 0x3c]);
    bytes.extend_from_slice(&u16::try_from(data.len()).unwrap().to_be_bytes());
    bytes.extend_from_slice(data);
    bytes
}

#[test]
fn encodes_a_query() {
    let query = encode_query(0x1234, "tracker.example", DNS_TYPE_A).unwrap();
    assert_eq!(&query[..2], &[0x12, 0x34]);
    assert_eq!(
        &query[DNS_HEADER_LEN..],
        &[
            7, b't', b'r', b'a', b'c', b'k', b'e', b'r', 7, b'e', b'x', b'a', b'm', b'p', b'l',
            b'e', 0, 0, 1, 0, 1
        ]
    );
}

#[test]
fn parses_compressed_a_response() {
    let mut packet = encode_query(0x1234, "tracker.example", DNS_TYPE_A).unwrap();
    packet[2..4].copy_from_slice(&0x8180u16.to_be_bytes());
    packet[6..8].copy_from_slice(&1u16.to_be_bytes());
    packet.extend_from_slice(&[
        0xc0, 0x0c, // compressed name
        0x00, 0x01, // A
        0x00, 0x01, // IN
        0x00, 0x00, 0x00, 0x3c, // TTL
        0x00, 0x04, // data length
        192, 0, 2, 1,
    ]);
    assert_eq!(
        parse_response(&packet, 0x1234, DNS_TYPE_A).unwrap(),
        vec![IpAddress::v4(192, 0, 2, 1)]
    );
}

#[test]
fn rejects_wrong_transaction() {
    let packet = encode_query(0x1234, "tracker.example", DNS_TYPE_A).unwrap();
    assert!(parse_response(&packet, 0x9999, DNS_TYPE_A).is_err());
    assert_eq!(
        parse_response(&packet, 0x9999, DNS_TYPE_A),
        Err(DnsError::TransactionMismatch)
    );
}

#[test]
fn a_query_has_this_header() {
    let query = encode_query(0xabcd, "a.b", DNS_TYPE_AAAA).unwrap();
    assert_eq!(
        query,
        vec![
            0xab, 0xcd, 0x01, 0x00, 0, 1, 0, 0, 0, 0, 0, 0, 1, b'a', 1, b'b', 0, 0, 28, 0, 1
        ]
    );
}

#[test]
fn trailing_dots_make_no_difference() {
    assert_eq!(
        encode_query(7, "tracker.example....", DNS_TYPE_A),
        encode_query(7, "tracker.example", DNS_TYPE_A)
    );
}

#[test]
fn refuses_a_hostname_without_labels() {
    assert_eq!(encode_query(1, "", DNS_TYPE_A), Err(DnsError::InvalidHostname));
    assert_eq!(encode_query(1, "...", DNS_TYPE_A), Err(DnsError::InvalidHostname));
}

#[test]
fn hostnames_are_bounded() {
    // Four labels of 63, 63, 63 and 61 bytes, with three dots.
    let label = "x".repeat(63);
    let longest = format!("{label}.{label}.{label}.{}", "x".repeat(61));
    assert_eq!(longest.len(), 253);
    let query = encode_query(1, &longest, DNS_TYPE_A).unwrap();
    assert_eq!(query.len(), DNS_HEADER_LEN + 253 + 6);
    let longer = format!("{longest}x");
    assert_eq!(encode_query(1, &longer, DNS_TYPE_A), Err(DnsError::InvalidHostname));
}

#[test]
fn hostname_labels_are_bounded() {
    assert_eq!(encode_query(1, "a..b", DNS_TYPE_A), Err(DnsError::InvalidHostnameLabel));
    assert_eq!(encode_query(1, ".b", DNS_TYPE_A), Err(DnsError::InvalidHostnameLabel));
    assert!(encode_query(1, &"x".repeat(63), DNS_TYPE_A).is_ok());
    assert_eq!(
        encode_query(1, &"x".repeat(64), DNS_TYPE_A),
        Err(DnsError::InvalidHostnameLabel)
    );
}

#[test]
fn a_label_is_measured_in_bytes() {
    let query = encode_query(1, "\u{fc}.de", DNS_TYPE_A).unwrap();
    assert_eq!(&query[DNS_HEADER_LEN..DNS_HEADER_LEN + 3], &[2, 0xc3, 0xbc]);
}

#[test]
fn reads_a_number_of_two_bytes() {
    assert_eq!(read_u16(&[1, 2, 3], 1), Ok(0x0203));
    assert_eq!(read_u16(&[1, 2, 3], 2), Err(DnsError::TruncatedResponse));
    assert_eq!(read_u16(&[1, 2, 3], usize::MAX), Err(DnsError::TruncatedResponse));
}

#[test]
fn skips_a_name() {
    assert_eq!(skip_name(&[1, b'a', 2, b'b', b'c', 0, 9], 0), Ok(6));
    assert_eq!(skip_name(&[0], 0), Ok(1));
    assert_eq!(skip_name(&[1, b'a', 0xc0, 0x0c, 9], 0), Ok(4));
}

#[test]
fn a_name_may_be_broken() {
    assert_eq!(skip_name(&[], 0), Err(DnsError::TruncatedName));
    assert_eq!(skip_name(&[3, b'a'], 0), Err(DnsError::TruncatedName));
    assert_eq!(skip_name(&[1, b'a'], 0), Err(DnsError::TruncatedName));
    assert_eq!(skip_name(&[0xc0], 0), Err(DnsError::TruncatedPointer));
    assert_eq!(skip_name(&[0x40, 0], 0), Err(DnsError::InvalidNameLabel));
    assert_eq!(skip_name(&[0x80, 0], 0), Err(DnsError::InvalidNameLabel));
}

#[test]
fn a_name_has_at_most_so_many_labels() {
    // The end of the name counts as one.
    let mut name = Vec::new();
    for _ in 0..127 {
        name.extend_from_slice(&[1, b'a']);
    }
    name.push(0);
    assert_eq!(skip_name(&name, 0), Ok(255));
    let mut longer = vec![1, b'a'];
    longer.extend_from_slice(&name);
    assert_eq!(skip_name(&longer, 0), Err(DnsError::LabelLimit));
}

#[test]
fn a_response_has_a_header() {
    assert_eq!(
        parse_response(&[0x12, 0x34, 0x81, 0x80, 0, 0, 0, 0, 0, 0, 0], 0x1234, DNS_TYPE_A),
        Err(DnsError::TruncatedHeader)
    );
}

#[test]
fn a_query_is_not_a_response() {
    let packet = encode_query(0x1234, "tracker.example", DNS_TYPE_A).unwrap();
    assert_eq!(
        parse_response(&packet, 0x1234, DNS_TYPE_A),
        Err(DnsError::NotResponse)
    );
}

#[test]
fn flags_can_refuse_a_response() {
    let mut packet = response_with(DNS_TYPE_A, 0, &[]);
    packet[2..4].copy_from_slice(&0x8380u16.to_be_bytes());
    assert_eq!(
        parse_response(&packet, 0x1234, DNS_TYPE_A),
        Err(DnsError::TruncationUnsupported)
    );
    packet[2..4].copy_from_slice(&0x8183u16.to_be_bytes());
    assert_eq!(
        parse_response(&packet, 0x1234, DNS_TYPE_A),
        Err(DnsError::ResponseCode(3))
    );
}

#[test]
fn a_question_may_be_truncated() {
    let packet = response_with(DNS_TYPE_A, 0, &[]);
    let cut = packet.len() - 1;
    assert_eq!(
        parse_response(&packet[..cut], 0x1234, DNS_TYPE_A),
        Err(DnsError::TruncatedQuestion)
    );
}

#[test]
fn an_answer_may_be_truncated() {
    let packet = response_with(DNS_TYPE_A, 1, &answer(DNS_TYPE_A, 1, &[192, 0, 2, 1]));
    let all = packet.len();
    assert_eq!(
        parse_response(&packet[..all - 1], 0x1234, DNS_TYPE_A),
        Err(DnsError::TruncatedAnswer)
    );
    assert_eq!(
        parse_response(&packet[..all - 5], 0x1234, DNS_TYPE_A),
        Err(DnsError::TruncatedResponse)
    );
    assert_eq!(
        parse_response(&packet[..all - 15], 0x1234, DNS_TYPE_A),
        Err(DnsError::TruncatedPointer)
    );
    assert_eq!(
        parse_response(&packet[..all - 16], 0x1234, DNS_TYPE_A),
        Err(DnsError::TruncatedName)
    );
}

#[test]
fn parses_an_aaaa_response() {
    let mut data = [0u8; 16];
    data[0] = 0x20;
    data[1] = 0x01;
    data[15] = 9;
    let packet = response_with(DNS_TYPE_AAAA, 1, &answer(DNS_TYPE_AAAA, 1, &data));
    assert_eq!(
        parse_response(&packet, 0x1234, DNS_TYPE_AAAA),
        Ok(vec![IpAddress::V6(0x2001_0000_0000_0000_0000_0000_0000_0009)])
    );
}

#[test]
fn only_matching_answers_count() {
    let mut answers = Vec::new();
    // An alias.
    answers.extend_from_slice(&answer(5, 1, &[0xc0, 0x0c]));
    // Another class.
    answers.extend_from_slice(&answer(DNS_TYPE_A, 3, &[1, 1, 1, 1]));
    // Another type.
    answers.extend_from_slice(&answer(DNS_TYPE_AAAA, 1, &[0; 16]));
    // A wrong length.
    answers.extend_from_slice(&answer(DNS_TYPE_A, 1, &[1, 1, 1]));
    answers.extend_from_slice(&answer(DNS_TYPE_A, 1, &[192, 0, 2, 1]));
    answers.extend_from_slice(&answer(DNS_TYPE_A, 1, &[192, 0, 2, 2]));
    let packet = response_with(DNS_TYPE_A, 6, &answers);
    assert_eq!(
        parse_response(&packet, 0x1234, DNS_TYPE_A),
        Ok(vec![IpAddress::v4(192, 0, 2, 1), IpAddress::v4(192, 0, 2, 2)])
    );
}

#[test]
fn a_response_without_answers_has_no_addresses() {
    let packet = response_with(DNS_TYPE_A, 0, &[]);
    assert_eq!(parse_response(&packet, 0x1234, DNS_TYPE_A), Ok(Vec::new()));
}

#[test]
fn the_written_question_is_read() {
    let packet = encode_query(1, "tracker.example", DNS_TYPE_A).unwrap();
    assert_eq!(skip_name(&packet, DNS_HEADER_LEN), Ok(packet.len() - 4));
    assert_eq!(read_u16(&packet, packet.len() - 4), Ok(DNS_TYPE_A));
}
