//! CIDR blocks: an address family, a network address of the family's
//! width, and a prefix length, kept in canonical form (no host bits set).

use crate::num::{dec_of, pow2_u128, pow2_u32, push_decimal};
use vstd::arithmetic::power2::{lemma2_to64, lemma_pow2_adds, lemma_pow2_pos, pow2};
use vstd::prelude::*;

verus! {

/// What ipnet's `Ipv6Net` display produces for a network address and
/// prefix length: the RFC 5952 address text, a slash, and the decimal
/// prefix length.
pub uninterp spec fn ipv6_text_of(addr: u128, prefix: u8) -> Seq<u8>;

/// Relies on ipnet's `Ipv6Net` display, which writes `addr/prefix_len`:
/// the text is a function of the address and prefix length alone.
/// `Ipv6Net::new` fails only for a prefix length above 128, which the
/// precondition rules out.
#[verifier::external_body]
fn ipv6_net_text(addr: u128, prefix: u8) -> (r: Vec<u8>)
    requires
        prefix <= 128,
    ensures
        r@ == ipv6_text_of(addr, prefix),
{
    let net = ipnet::Ipv6Net::new(addr.into(), prefix).unwrap();
    net.to_string().into_bytes()
}

/// Text of a block in CIDR notation, as ASCII bytes: the dotted quad for
/// IPv4, the RFC 5952 form for IPv6, then a slash and the prefix length.
pub open spec fn block_text(b: CidrBlock) -> Seq<u8> {
    match b {
        CidrBlock::V4 { addr, prefix } => dec_of(addr as int / 0x1000000) + seq![0x2eu8] + dec_of(
            addr as int / 0x10000 % 0x100,
        ) + seq![0x2eu8] + dec_of(addr as int / 0x100 % 0x100) + seq![0x2eu8] + dec_of(
            addr as int % 0x100,
        ) + seq![0x2fu8] + dec_of(prefix as int),
        CidrBlock::V6 { addr, prefix } => ipv6_text_of(addr, prefix),
    }
}

/// A CIDR block. The network address has the family's width; the prefix
/// length counts the fixed leading bits.
#[derive(Clone, Copy, Debug, PartialEq, Eq, Structural)]
#[allow(inconsistent_fields)]
pub enum CidrBlock {
    V4 { addr: u32, prefix: u8 },
    V6 { addr: u128, prefix: u8 },
}

/// Network address of a block as an unsigned integer.
pub open spec fn block_addr(b: CidrBlock) -> int {
    match b {
        CidrBlock::V4 { addr, .. } => addr as int,
        CidrBlock::V6 { addr, .. } => addr as int,
    }
}

/// Prefix length of a block.
pub open spec fn block_prefix(b: CidrBlock) -> int {
    match b {
        CidrBlock::V4 { prefix, .. } => prefix as int,
        CidrBlock::V6 { prefix, .. } => prefix as int,
    }
}

/// Number of addresses an IPv4 block covers: `2^(32 - prefix)`.
pub open spec fn v4_size(b: CidrBlock) -> int
    recommends
        b is V4,
{
    pow2((32 - block_prefix(b)) as nat) as int
}

/// An IPv4 block covers the address `x`.
pub open spec fn covers(b: CidrBlock, x: int) -> bool {
    b is V4 && block_addr(b) <= x < block_addr(b) + v4_size(b)
}

impl CidrBlock {
    /// Well-formed: the prefix length fits the family's width and the
    /// network address is canonical, all bits beyond the prefix zero.
    pub open spec fn wf(self) -> bool {
        match self {
            CidrBlock::V4 { addr, prefix } => prefix <= 32 && addr as int % (pow2(
                (32 - prefix) as nat,
            ) as int) == 0,
            CidrBlock::V6 { addr, prefix } => prefix <= 128 && addr as int % (pow2(
                (128 - prefix) as nat,
            ) as int) == 0,
        }
    }

    /// Total order on blocks: by family (IPv4 first), then by network
    /// address as an unsigned integer, then by prefix length ascending.
    pub open spec fn lt(self, other: CidrBlock) -> bool {
        match (self, other) {
            (CidrBlock::V4 { .. }, CidrBlock::V6 { .. }) => true,
            (CidrBlock::V6 { .. }, CidrBlock::V4 { .. }) => false,
            (
                CidrBlock::V4 { addr: a1, prefix: p1 },
                CidrBlock::V4 { addr: a2, prefix: p2 },
            ) => a1 < a2 || (a1 == a2 && p1 < p2),
            (
                CidrBlock::V6 { addr: a1, prefix: p1 },
                CidrBlock::V6 { addr: a2, prefix: p2 },
            ) => a1 < a2 || (a1 == a2 && p1 < p2),
        }
    }

    /// Executable comparison deciding the `lt` order.
    pub fn lt_exec(&self, other: &CidrBlock) -> (r: bool)
        ensures
            r == self.lt(*other),
    {
        match (self, other) {
            (CidrBlock::V4 { .. }, CidrBlock::V6 { .. }) => true,
            (CidrBlock::V6 { .. }, CidrBlock::V4 { .. }) => false,
            (
                CidrBlock::V4 { addr: a1, prefix: p1 },
                CidrBlock::V4 { addr: a2, prefix: p2 },
            ) => *a1 < *a2 || (*a1 == *a2 && *p1 < *p2),
            (
                CidrBlock::V6 { addr: a1, prefix: p1 },
                CidrBlock::V6 { addr: a2, prefix: p2 },
            ) => *a1 < *a2 || (*a1 == *a2 && *p1 < *p2),
        }
    }

    /// Build a canonical IPv4 block, clearing the host bits of `addr`.
    pub fn new_v4(addr: u32, prefix: u8) -> (r: CidrBlock)
        requires
            prefix <= 32,
        ensures
            r == (CidrBlock::V4 { addr: canon_v4(addr, prefix), prefix }),
            r.wf(),
    {
        proof {
            lemma_canon_v4(addr, prefix);
        }
        if prefix == 0 {
            CidrBlock::V4 { addr: 0, prefix }
        } else {
            let sz: u32 = pow2_u32(32 - prefix as u32);
            proof {
                lemma_pow2_pos((32 - prefix) as nat);
                vstd::arithmetic::div_mod::lemma_mod_decreases(addr as nat, sz as nat);
            }
            CidrBlock::V4 { addr: addr - addr % sz, prefix }
        }
    }

    /// Build a canonical IPv6 block, clearing the host bits of `addr`.
    pub fn new_v6(addr: u128, prefix: u8) -> (r: CidrBlock)
        requires
            prefix <= 128,
        ensures
            r == (CidrBlock::V6 { addr: canon_v6(addr, prefix), prefix }),
            r.wf(),
    {
        proof {
            lemma_canon_v6(addr, prefix);
        }
        if prefix == 0 {
            CidrBlock::V6 { addr: 0, prefix }
        } else {
            let sz: u128 = pow2_u128(128 - prefix as u32);
            proof {
                lemma_pow2_pos((128 - prefix) as nat);
                vstd::arithmetic::div_mod::lemma_mod_decreases(addr as nat, sz as nat);
            }
            CidrBlock::V6 { addr: addr - addr % sz, prefix }
        }
    }

    /// The block in CIDR text form, as ASCII bytes.
    pub fn to_cidr_bytes(&self) -> (r: Vec<u8>)
        requires
            self.wf(),
        ensures
            r@ == block_text(*self),
    {
        match self {
            CidrBlock::V4 { addr, prefix } => {
                let mut out: Vec<u8> = Vec::new();
                push_decimal(&mut out, (*addr / 0x1000000) as u64);
                out.push(0x2e);
                push_decimal(&mut out, (*addr / 0x10000 % 0x100) as u64);
                out.push(0x2e);
                push_decimal(&mut out, (*addr / 0x100 % 0x100) as u64);
                out.push(0x2e);
                push_decimal(&mut out, (*addr % 0x100) as u64);
                out.push(0x2f);
                push_decimal(&mut out, *prefix as u64);
                proof {
                    assert(out@ =~= block_text(*self));
                }
                out
            },
            CidrBlock::V6 { addr, prefix } => ipv6_net_text(*addr, *prefix),
        }
    }
}

/// Canonical form of an IPv4 network address under a prefix length:
/// the address with its host bits cleared.
pub open spec fn canon_v4(addr: u32, prefix: u8) -> u32
    recommends
        prefix <= 32,
{
    (addr - addr as int % (pow2((32 - prefix) as nat) as int)) as u32
}

/// Canonical form of an IPv6 network address under a prefix length.
pub open spec fn canon_v6(addr: u128, prefix: u8) -> u128
    recommends
        prefix <= 128,
{
    (addr - addr as int % (pow2((128 - prefix) as nat) as int)) as u128
}

/// Clearing host bits yields a canonical address, and a prefix of zero
/// clears the whole address.
pub proof fn lemma_canon_v4(addr: u32, prefix: u8)
    requires
        prefix <= 32,
    ensures
        0 <= canon_v4(addr, prefix) <= addr,
        canon_v4(addr, prefix) as int % (pow2((32 - prefix) as nat) as int) == 0,
        prefix == 0 ==> canon_v4(addr, prefix) == 0,
{
    let h = (32 - prefix) as nat;
    let p = pow2(h) as int;
    lemma_pow2_pos(h);
    vstd::arithmetic::div_mod::lemma_mod_bound(addr as int, p);
    vstd::arithmetic::div_mod::lemma_mod_decreases(addr as nat, pow2(h));
    vstd::arithmetic::div_mod::lemma_fundamental_div_mod(addr as int, p);
    let q = addr as int / p;
    vstd::arithmetic::div_mod::lemma_mod_multiples_basic(q, p);
    if prefix == 0 {
        lemma_pow2_32_value();
        vstd::arithmetic::div_mod::lemma_small_mod(addr as nat, pow2(32));
    }
}

/// Clearing host bits yields a canonical address, and a prefix of zero
/// clears the whole address.
pub proof fn lemma_canon_v6(addr: u128, prefix: u8)
    requires
        prefix <= 128,
    ensures
        0 <= canon_v6(addr, prefix) <= addr,
        canon_v6(addr, prefix) as int % (pow2((128 - prefix) as nat) as int) == 0,
        prefix == 0 ==> canon_v6(addr, prefix) == 0,
{
    let h = (128 - prefix) as nat;
    let p = pow2(h) as int;
    lemma_pow2_pos(h);
    vstd::arithmetic::div_mod::lemma_mod_bound(addr as int, p);
    vstd::arithmetic::div_mod::lemma_mod_decreases(addr as nat, pow2(h));
    vstd::arithmetic::div_mod::lemma_fundamental_div_mod(addr as int, p);
    let q = addr as int / p;
    vstd::arithmetic::div_mod::lemma_mod_multiples_basic(q, p);
    if prefix == 0 {
        lemma_pow2_128_value();
        vstd::arithmetic::div_mod::lemma_small_mod(addr as nat, pow2(128));
    }
}

/// Concrete value of `pow2(32)`.
proof fn lemma_pow2_32_value()
    ensures
        pow2(32) == 0x100000000,
{
    lemma2_to64();
}

/// Concrete value of `pow2(128)`.
proof fn lemma_pow2_128_value()
    ensures
        pow2(128) == 0x100000000000000000000000000000000,
{
    lemma2_to64();
    lemma_pow2_adds(64, 64);
}

/// The block order is irreflexive and asymmetric, and any two distinct
/// blocks are ordered one way or the other: a strict total order.
pub proof fn lemma_lt_total(a: CidrBlock, b: CidrBlock)
    ensures
        a == b <==> (!a.lt(b) && !b.lt(a)),
        !(a.lt(b) && b.lt(a)),
{
}

/// The block order is transitive.
pub proof fn lemma_lt_trans(a: CidrBlock, b: CidrBlock, c: CidrBlock)
    requires
        a.lt(b),
        b.lt(c),
    ensures
        a.lt(c),
{
}

} // verus!
