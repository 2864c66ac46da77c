use fetch_ccip::cidr::CidrBlock;
use fetch_ccip::parse::{parse_ip_lines, parse_record_line, AllocationRecord, IpRange};
use fetch_ccip::CoreError;

const JP_V4_LINE: &[u8] = b"apnic|JP|ipv4|1.2.3.0|256|20200101|allocated";

#[test]
fn record_matching_country() {
    let rec: AllocationRecord = parse_record_line(JP_V4_LINE, b"JP").unwrap().unwrap();
    assert_eq!(rec.registry, b"apnic".to_vec());
    assert_eq!(rec.country, b"JP".to_vec());
    assert_eq!(
        rec.range,
        IpRange::V4 {
            start: 0x01020300,
            count: 256
        }
    );
    assert_eq!(rec.status, b"allocated".to_vec());
}

#[test]
fn record_other_country() {
    assert!(parse_record_line(JP_V4_LINE, b"US").unwrap().is_none());
    // The filter is case-sensitive.
    assert!(parse_record_line(JP_V4_LINE, b"jp").unwrap().is_none());
}

#[test]
fn record_skipped_lines() {
    // Comment lines, summary lines and reserved lines are skipped, not
    // errors.
    assert!(parse_record_line(b"#comment|JP|ipv4|1.2.3.0|256", b"JP")
        .unwrap()
        .is_none());
    assert!(parse_record_line(b"apnic|*|ipv4|*|22", b"JP").unwrap().is_none());
    assert!(
        parse_record_line(b"apnic|JP|ipv4|1.2.3.0|256|20200101|reserved", b"JP")
            .unwrap()
            .is_none()
    );
    // The reserved filter looks at the whole line, wherever the word
    // stands.
    assert!(
        parse_record_line(b"reservedregistry|JP|ipv4|1.2.3.0|256", b"JP")
            .unwrap()
            .is_none()
    );
}

#[test]
fn record_too_few_fields() {
    assert!(parse_record_line(b"apnic|JP|ipv4", b"JP").unwrap().is_none());
    assert!(parse_record_line(b"", b"JP").unwrap().is_none());
}

#[test]
fn record_other_family() {
    assert!(parse_record_line(b"apnic|JP|asn|1234|1", b"JP").unwrap().is_none());
}

#[test]
fn record_format_errors() {
    // An octet out of range.
    assert_eq!(
        parse_record_line(b"apnic|JP|ipv4|1.2.3.300|256", b"JP"),
        Err(CoreError::Format)
    );
    // A leading zero in an octet.
    assert_eq!(
        parse_record_line(b"apnic|JP|ipv4|01.2.3.0|256", b"JP"),
        Err(CoreError::Format)
    );
    // A count that is not a number.
    assert_eq!(
        parse_record_line(b"apnic|JP|ipv4|1.2.3.0|25x", b"JP"),
        Err(CoreError::Format)
    );
    // An IPv6 pair that is not a valid network.
    assert_eq!(
        parse_record_line(b"apnic|JP|ipv6|zz::|32", b"JP"),
        Err(CoreError::Format)
    );
    // An IPv6 prefix length out of range.
    assert_eq!(
        parse_record_line(b"apnic|JP|ipv6|2001:db8::|129", b"JP"),
        Err(CoreError::Format)
    );
}

#[test]
fn record_ipv6() {
    let rec = parse_record_line(b"apnic|JP|ipv6|2001:db8::|32|20200101|allocated", b"JP")
        .unwrap()
        .unwrap();
    assert_eq!(
        rec.range,
        IpRange::V6 {
            addr: 0x20010DB8000000000000000000000000u128,
            prefix: 32
        }
    );
}

#[test]
fn record_without_status() {
    let rec = parse_record_line(b"apnic|JP|ipv4|1.2.3.0|256", b"JP").unwrap().unwrap();
    assert_eq!(rec.status, Vec::<u8>::new());
}

#[test]
fn lines_mixed_text() {
    let text = b"#header\n\
apnic|*|ipv4|*|22\n\
apnic|JP|ipv4|1.2.3.0|256|20200101|allocated\r\n\
apnic|US|ipv4|9.0.0.0|256|20200101|allocated\n\
apnic|JP|ipv6|2001:db8::|32|20200101|allocated\n\
short|line\n\
apnic|JP|ipv4|10.0.0.5|3|20200101|allocated";
    let (v4, v6) = parse_ip_lines(text, b"JP");
    assert_eq!(
        v4,
        vec![
            CidrBlock::V4 {
                addr: 0x01020300,
                prefix: 24
            },
            CidrBlock::V4 {
                addr: 0x0A000005,
                prefix: 32
            },
            CidrBlock::V4 {
                addr: 0x0A000006,
                prefix: 31
            },
        ]
    );
    assert_eq!(
        v6,
        vec![CidrBlock::V6 {
            addr: 0x20010DB8000000000000000000000000u128,
            prefix: 32
        }]
    );
}

#[test]
fn lines_bad_line_does_not_stop_the_walk() {
    // A malformed matching line is skipped; later lines still parse.
    let text = b"apnic|JP|ipv4|1.2.3.300|256\napnic|JP|ipv4|1.2.3.0|256";
    let (v4, v6) = parse_ip_lines(text, b"JP");
    assert_eq!(
        v4,
        vec![CidrBlock::V4 {
            addr: 0x01020300,
            prefix: 24
        }]
    );
    assert!(v6.is_empty());
}

#[test]
fn lines_overflowing_record_is_skipped() {
    let text = b"apnic|JP|ipv4|255.255.255.255|2\napnic|JP|ipv4|1.2.3.0|256";
    let (v4, _) = parse_ip_lines(text, b"JP");
    assert_eq!(
        v4,
        vec![CidrBlock::V4 {
            addr: 0x01020300,
            prefix: 24
        }]
    );
}

#[test]
fn lines_empty_text() {
    let (v4, v6) = parse_ip_lines(b"", b"JP");
    assert!(v4.is_empty());
    assert!(v6.is_empty());
}
