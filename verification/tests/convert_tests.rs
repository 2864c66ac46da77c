use fetch_ccip::cidr::CidrBlock;
use fetch_ccip::convert::{decompose, largest_ipv4_block};
use fetch_ccip::num::floor_log2;
use fetch_ccip::CoreError;

fn v4(addr: u32, prefix: u8) -> CidrBlock {
    CidrBlock::V4 { addr, prefix }
}

#[test]
fn decompose_aligned_range() {
    // 192.168.1.0 with 4 addresses is a single /30.
    let r = decompose(0xC0A80100, 4).unwrap();
    assert_eq!(r, vec![v4(0xC0A80100, 30)]);
}

#[test]
fn decompose_unaligned_range() {
    // 10.0.0.5 with 3 addresses: .5 has no trailing zero bits, so a /32
    // comes first; .6 is 2-aligned with 2 addresses left, a /31.
    let r = decompose(0x0A000005, 3).unwrap();
    assert_eq!(r, vec![v4(0x0A000005, 32), v4(0x0A000006, 31)]);
}

#[test]
fn decompose_full_space() {
    // The whole 32-bit space is one /0 and does not overflow.
    let r = decompose(0, 4294967296).unwrap();
    assert_eq!(r, vec![v4(0, 0)]);
}

#[test]
fn decompose_overflow() {
    assert_eq!(decompose(0xFFFFFFFF, 2), Err(CoreError::Overflow));
    assert_eq!(decompose(1, u64::MAX), Err(CoreError::Overflow));
    assert_eq!(decompose(1, 4294967296), Err(CoreError::Overflow));
    // The last range that still fits.
    let r = decompose(0xFFFFFFFF, 1).unwrap();
    assert_eq!(r, vec![v4(0xFFFFFFFF, 32)]);
}

#[test]
fn decompose_zero_count() {
    // A zero count is degenerate and yields zero blocks.
    assert_eq!(decompose(0xC0A80100, 0), Ok(vec![]));
}

#[test]
fn decompose_coverage_and_canonical() {
    // [5, 13]: every address covered exactly once, addresses canonical,
    // blocks contiguous and strictly increasing, sizes sum to the count.
    let start: u32 = 5;
    let count: u64 = 9;
    let blocks = decompose(start, count).unwrap();
    let mut covered: Vec<u32> = Vec::new();
    let mut prev_end: u64 = start as u64;
    let mut prev_addr: i64 = -1;
    let mut total: u64 = 0;
    for b in &blocks {
        match b {
            CidrBlock::V4 { addr, prefix } => {
                assert!(*prefix <= 32);
                let size: u64 = 1u64 << (32 - prefix);
                // Canonical: no host bits set.
                assert_eq!(*addr as u64 % size, 0);
                // Strictly increasing, no gap.
                assert!((*addr as i64) > prev_addr);
                assert_eq!(*addr as u64, prev_end);
                prev_addr = *addr as i64;
                prev_end = *addr as u64 + size;
                total += size;
                for x in 0..size {
                    covered.push(*addr + x as u32);
                }
            }
            CidrBlock::V6 { .. } => panic!("IPv6 block from the IPv4 converter"),
        }
    }
    assert_eq!(total, count);
    let expect: Vec<u32> = (start..start + count as u32).collect();
    assert_eq!(covered, expect);
}

#[test]
fn decompose_deterministic() {
    let a = decompose(0x0A000005, 1000).unwrap();
    let b = decompose(0x0A000005, 1000).unwrap();
    assert_eq!(a, b);
}

#[test]
fn largest_block_values() {
    // 192.168.1.0 .. 192.168.1.3: 8 trailing zeros but only 4 addresses.
    assert_eq!(largest_ipv4_block(0xC0A80100, 0xC0A80103), 30);
    // An odd start forces a /32.
    assert_eq!(largest_ipv4_block(5, 7), 32);
    // The whole space from zero.
    assert_eq!(largest_ipv4_block(0, 0xFFFFFFFF), 0);
    // Alignment allows /24 and the span asks exactly that.
    assert_eq!(largest_ipv4_block(0x01020300, 0x010203FF), 24);
}

#[test]
fn floor_log2_values() {
    assert_eq!(floor_log2(0), 0);
    assert_eq!(floor_log2(1), 0);
    assert_eq!(floor_log2(2), 1);
    assert_eq!(floor_log2(3), 1);
    assert_eq!(floor_log2(255), 7);
    assert_eq!(floor_log2(256), 8);
    assert_eq!(floor_log2(4294967296), 32);
}

#[test]
fn canonical_constructors() {
    // Host bits are cleared on construction.
    let b = CidrBlock::new_v4(0xC0A801FF, 24);
    assert_eq!(b, v4(0xC0A80100, 24));
    let b6 = CidrBlock::new_v6(0x20010DB8000000000000000000000001u128, 32);
    assert_eq!(
        b6,
        CidrBlock::V6 {
            addr: 0x20010DB8000000000000000000000000u128,
            prefix: 32
        }
    );
    // A zero prefix clears everything.
    assert_eq!(CidrBlock::new_v4(0xDEADBEEF, 0), v4(0, 0));
}

#[test]
fn block_text_forms() {
    assert_eq!(v4(0x01020300, 24).to_cidr_bytes(), b"1.2.3.0/24".to_vec());
    assert_eq!(v4(0, 0).to_cidr_bytes(), b"0.0.0.0/0".to_vec());
    assert_eq!(
        v4(0xFFFFFFFF, 32).to_cidr_bytes(),
        b"255.255.255.255/32".to_vec()
    );
    let b6 = CidrBlock::V6 {
        addr: 0x20010DB8000000000000000000000000u128,
        prefix: 32,
    };
    assert_eq!(b6.to_cidr_bytes(), b"2001:db8::/32".to_vec());
    let any6 = CidrBlock::V6 { addr: 0, prefix: 0 };
    assert_eq!(any6.to_cidr_bytes(), b"::/0".to_vec());
}
