use fetch_ccip::blockset::BlockSet;
use fetch_ccip::cidr::CidrBlock;
use fetch_ccip::process::parse_and_collect_ips;

fn v4(addr: u32, prefix: u8) -> CidrBlock {
    CidrBlock::V4 { addr, prefix }
}

#[test]
fn set_dedup() {
    // Inserting the same block twice leaves the set size unchanged.
    let mut set = BlockSet::new();
    let b = v4(0x01020300, 24);
    set.insert(b);
    assert_eq!(set.len(), 1);
    set.insert(b);
    assert_eq!(set.len(), 1);
    assert!(set.contains_block(&b));
}

#[test]
fn set_keeps_order() {
    // Insertion order does not matter: iteration follows the block
    // order — family first, then address, then prefix length.
    let mut set = BlockSet::new();
    let b6 = CidrBlock::V6 { addr: 0, prefix: 0 };
    let late = v4(0x0A000000, 8);
    let early = v4(0x01020300, 24);
    let narrow = v4(0x01020300, 25);
    set.insert(b6);
    set.insert(late);
    set.insert(narrow);
    set.insert(early);
    assert_eq!(set.len(), 4);
    assert_eq!(set.get(0), early);
    assert_eq!(set.get(1), narrow);
    assert_eq!(set.get(2), late);
    assert_eq!(set.get(3), b6);
}

#[test]
fn aggregate_two_sources_dedup() {
    // The same record in two source texts yields the block exactly once.
    let text = b"apnic|JP|ipv4|1.2.3.0|256|20200101|allocated".to_vec();
    let texts = vec![text.clone(), text];
    let (set4, set6) = parse_and_collect_ips(b"JP", &texts);
    assert_eq!(set4.len(), 1);
    assert_eq!(set4.get(0), v4(0x01020300, 24));
    assert_eq!(set6.len(), 0);
}

#[test]
fn aggregate_merges_and_orders() {
    let t1 = b"ripencc|DE|ipv4|10.0.0.0|256\nripencc|DE|ipv6|2001:db8::|32".to_vec();
    let t2 = b"arin|DE|ipv4|9.0.0.0|256\nripencc|DE|ipv4|10.0.0.0|256".to_vec();
    let (set4, set6) = parse_and_collect_ips(b"DE", &t2_first(t1, t2));
    assert_eq!(set4.len(), 2);
    assert_eq!(set4.get(0), v4(0x09000000, 24));
    assert_eq!(set4.get(1), v4(0x0A000000, 24));
    assert_eq!(set6.len(), 1);
    assert_eq!(
        set6.get(0),
        CidrBlock::V6 {
            addr: 0x20010DB8000000000000000000000000u128,
            prefix: 32
        }
    );
}

fn t2_first(t1: Vec<u8>, t2: Vec<u8>) -> Vec<Vec<u8>> {
    vec![t2, t1]
}

#[test]
fn aggregate_no_match_is_empty() {
    let texts = vec![b"apnic|JP|ipv4|1.2.3.0|256".to_vec()];
    let (set4, set6) = parse_and_collect_ips(b"BR", &texts);
    assert_eq!(set4.len(), 0);
    assert_eq!(set6.len(), 0);
}

#[test]
fn render_joined_lines() {
    let mut set = BlockSet::new();
    set.insert(v4(0x0A000000, 8));
    set.insert(v4(0x01020300, 24));
    assert_eq!(set.render_lines(), b"1.2.3.0/24\n10.0.0.0/8".to_vec());
    let empty = BlockSet::new();
    assert_eq!(empty.render_lines(), Vec::<u8>::new());
}
