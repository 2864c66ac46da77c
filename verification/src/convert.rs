//! Range-to-CIDR converter: turns an inclusive IPv4 address range
//! `[start, start + count - 1]` into the ordered list of aligned,
//! canonical CIDR blocks that exactly tiles it, by the greedy rule:
//! at each step take the largest block that both starts aligned at the
//! current address and fits in what remains.

use crate::cidr::{block_addr, covers, v4_size, CidrBlock};
use crate::num::{
    floor_log2, ilog2, lemma_ilog2_bounds, lemma_tz_divides, pow2_u64, trailing_zeros_u32, tz_of,
};
use crate::CoreError;
use vstd::arithmetic::power2::{
    lemma2_to64, lemma2_to64_rest, lemma_pow2_adds, lemma_pow2_pos, lemma_pow2_strictly_increases,
    pow2,
};
use vstd::prelude::*;

verus! {

/// Alignment bound: the exponent of the largest power of two that divides
/// the current address (32 for address zero).
pub open spec fn align_exp(cur: int) -> nat {
    if cur == 0 {
        32
    } else {
        tz_of(cur)
    }
}

/// Span bound: the exponent of the largest power of two not above the
/// number of addresses still to cover.
pub open spec fn span_exp(cur: int, end: int) -> nat
    recommends
        cur <= end,
{
    ilog2(end - cur + 1)
}

/// Exponent of the block the greedy rule takes at the current address:
/// the smaller of the alignment bound and the span bound, so the block
/// starts aligned and fits in what remains.
pub open spec fn block_exp(cur: int, end: int) -> nat {
    if align_exp(cur) <= span_exp(cur, end) {
        align_exp(cur)
    } else {
        span_exp(cur, end)
    }
}

/// The greedy exponent stays within the address width, divides the
/// current address, and never overshoots the end of the range.
pub proof fn lemma_block_exp(cur: int, end: int)
    requires
        0 <= cur <= end < 0x100000000,
    ensures
        block_exp(cur, end) <= 32,
        cur % (pow2(block_exp(cur, end)) as int) == 0,
        pow2(block_exp(cur, end)) <= end - cur + 1,
{
    let a = align_exp(cur);
    let sp = span_exp(cur, end);
    let e = block_exp(cur, end);
    let rem = end - cur + 1;
    lemma_ilog2_bounds(rem);
    lemma_pow2_pos(e);
    if sp > 32 {
        if sp > 33 {
            lemma_pow2_strictly_increases(33, sp);
        }
        lemma2_to64();
        lemma2_to64_rest();
    }
    if e < sp {
        lemma_pow2_strictly_increases(e, sp);
    }
    if cur == 0 {
        vstd::arithmetic::div_mod::lemma_small_mod(0, pow2(e));
    } else {
        lemma_tz_divides(cur);
        let t = tz_of(cur);
        lemma_pow2_adds(e, (t - e) as nat);
        lemma_pow2_pos((t - e) as nat);
        vstd::arithmetic::div_mod::lemma_mod_mod(cur, pow2(e) as int, pow2((t - e) as nat) as int);
        vstd::arithmetic::div_mod::lemma_small_mod(0, pow2(e));
    }
}

/// Prefix length of the largest aligned CIDR block that starts at
/// `current` and does not pass `end`.
pub fn largest_ipv4_block(current: u32, end: u32) -> (r: u8)
    requires
        current <= end,
    ensures
        r as int == 32 - block_exp(current as int, end as int),
{
    let tz: u32 = trailing_zeros_u32(current);
    let rem: u64 = end as u64 - current as u64 + 1;
    let span: u32 = floor_log2(rem);
    let e: u32 = if tz <= span {
        tz
    } else {
        span
    };
    proof {
        lemma_block_exp(current as int, end as int);
    }
    (32 - e) as u8
}

/// The blocks the greedy rule emits over the inclusive range
/// `[cur, end]`, in emission order.
pub open spec fn decompose_blocks(cur: int, end: int) -> Seq<CidrBlock>
    decreases end + 1 - cur,
    when 0 <= cur && end < 0x100000000
    via decompose_blocks_dec
{
    if cur > end {
        Seq::empty()
    } else {
        seq![
            CidrBlock::V4 { addr: cur as u32, prefix: (32 - block_exp(cur, end)) as u8 },
        ] + decompose_blocks(cur + pow2(block_exp(cur, end)), end)
    }
}

#[via_fn]
proof fn decompose_blocks_dec(cur: int, end: int) {
    if cur <= end {
        lemma_block_exp(cur, end);
        lemma_pow2_pos(block_exp(cur, end));
    }
}

/// Total number of addresses covered by a sequence of IPv4 blocks.
pub open spec fn sum_sizes(s: Seq<CidrBlock>) -> int
    decreases s.len(),
{
    if s.len() == 0 {
        0
    } else {
        v4_size(s[0]) + sum_sizes(s.drop_first())
    }
}

/// Some emitted block covers the address `x`.
pub open spec fn covered_by(s: Seq<CidrBlock>, x: int) -> bool {
    exists|i: int| 0 <= i < s.len() && covers(#[trigger] s[i], x)
}

/// The greedy decomposition tiles `[cur, end]`: every block is canonical
/// IPv4, the first starts at `cur`, each next block starts right after
/// the one before it (strictly increasing, no gap, no overlap), the last
/// ends at `end`, and the block sizes add up to the range's size.
pub proof fn lemma_decompose_tiling(cur: int, end: int)
    requires
        0 <= cur <= end < 0x100000000,
    ensures
        ({
            let s = decompose_blocks(cur, end);
            &&& s.len() >= 1
            &&& forall|i: int| 0 <= i < s.len() ==> (#[trigger] s[i]) is V4 && s[i].wf()
            &&& block_addr(s[0]) == cur
            &&& forall|i: int|
                0 <= i < s.len() - 1 ==> block_addr(#[trigger] s[i + 1]) == block_addr(s[i])
                    + v4_size(s[i])
            &&& forall|i: int, j: int|
                #![trigger block_addr(s[i]), block_addr(s[j])]
                0 <= i < j < s.len() ==> block_addr(s[i]) < block_addr(s[j])
            &&& block_addr(s[s.len() - 1]) + v4_size(s[s.len() - 1]) == end + 1
            &&& sum_sizes(s) == end + 1 - cur
        }),
    decreases end + 1 - cur,
{
    let e = block_exp(cur, end);
    lemma_block_exp(cur, end);
    lemma_pow2_pos(e);
    let b = CidrBlock::V4 { addr: cur as u32, prefix: (32 - e) as u8 };
    let s = decompose_blocks(cur, end);
    let next = cur + pow2(e);
    assert(v4_size(b) == pow2(e));
    assert(b.wf());
    if next > end {
        assert(decompose_blocks(next, end) =~= Seq::<CidrBlock>::empty());
        assert(s =~= seq![b]);
        assert(s.drop_first() =~= Seq::<CidrBlock>::empty());
        assert(sum_sizes(s.drop_first()) == 0);
        assert(sum_sizes(s) == pow2(e));
    } else {
        lemma_decompose_tiling(next, end);
        let t = decompose_blocks(next, end);
        assert(s == seq![b] + t);
        assert(s.drop_first() =~= t);
        assert(s[0] == b);
        assert(forall|i: int| 0 <= i < t.len() ==> #[trigger] s[i + 1] == t[i]);
        assert forall|i: int| 0 <= i < s.len() - 1 implies block_addr(#[trigger] s[i + 1])
            == block_addr(s[i]) + v4_size(s[i]) by {
            if i > 0 {
                assert(s[i] == t[i - 1]);
                assert(s[i + 1] == t[i]);
            }
        }
        assert(s[s.len() - 1] == t[t.len() - 1]);
        assert(sum_sizes(s) == v4_size(b) + sum_sizes(t));
        assert forall|i: int, j: int|
            #![trigger block_addr(s[i]), block_addr(s[j])]
            0 <= i < j < s.len() implies block_addr(s[i]) < block_addr(s[j]) by {
            assert(s[j] == t[j - 1]);
            if i == 0 {
                assert(block_addr(t[0]) == next);
                if j > 1 {
                    assert(block_addr(t[0]) < block_addr(t[j - 1]));
                }
            } else {
                assert(s[i] == t[i - 1]);
                assert(block_addr(t[i - 1]) < block_addr(t[j - 1]));
            }
        }
    }
}

/// The greedy decomposition partitions `[cur, end]`: every address of the
/// range lies in some emitted block, no address of two blocks, and no
/// block covers anything outside the range.
pub proof fn lemma_decompose_partition(cur: int, end: int)
    requires
        0 <= cur <= end < 0x100000000,
    ensures
        ({
            let s = decompose_blocks(cur, end);
            &&& forall|x: int| cur <= x <= end <==> #[trigger] covered_by(s, x)
            &&& forall|i: int, j: int, x: int|
                #![trigger covers(s[i], x), covers(s[j], x)]
                0 <= i < s.len() && 0 <= j < s.len() && covers(s[i], x) && covers(s[j], x) ==> i
                    == j
        }),
    decreases end + 1 - cur,
{
    let e = block_exp(cur, end);
    lemma_block_exp(cur, end);
    lemma_pow2_pos(e);
    let b = CidrBlock::V4 { addr: cur as u32, prefix: (32 - e) as u8 };
    let s = decompose_blocks(cur, end);
    let next = cur + pow2(e);
    assert(v4_size(b) == pow2(e));
    if next > end {
        assert(decompose_blocks(next, end) =~= Seq::<CidrBlock>::empty());
        assert(s =~= seq![b]);
        assert forall|x: int| cur <= x <= end implies #[trigger] covered_by(s, x) by {
            assert(covers(s[0], x));
        }
        assert forall|x: int| #[trigger] covered_by(s, x) implies cur <= x <= end by {
            let i = choose|i: int| 0 <= i < s.len() && covers(#[trigger] s[i], x);
            assert(i == 0);
        }
    } else {
        lemma_decompose_partition(next, end);
        let t = decompose_blocks(next, end);
        assert(s == seq![b] + t);
        assert(s[0] == b);
        assert(forall|i: int| 0 <= i < t.len() ==> #[trigger] s[i + 1] == t[i]);
        assert forall|x: int| cur <= x <= end implies #[trigger] covered_by(s, x) by {
            if x < next {
                assert(covers(s[0], x));
            } else {
                assert(covered_by(t, x));
                let i = choose|i: int| 0 <= i < t.len() && covers(#[trigger] t[i], x);
                assert(s[i + 1] == t[i]);
                assert(covers(s[i + 1], x));
            }
        }
        assert forall|x: int| #[trigger] covered_by(s, x) implies cur <= x <= end by {
            let i = choose|i: int| 0 <= i < s.len() && covers(#[trigger] s[i], x);
            if i == 0 {
                assert(covers(b, x));
            } else {
                assert(s[i] == t[i - 1]);
                assert(covers(t[i - 1], x));
                assert(covered_by(t, x));
            }
        }
        assert forall|i: int, j: int, x: int|
            #![trigger covers(s[i], x), covers(s[j], x)]
            0 <= i < s.len() && 0 <= j < s.len() && covers(s[i], x) && covers(
                s[j],
                x,
            ) implies i == j by {
            if i == 0 && j > 0 {
                assert(covers(t[j - 1], x));
                assert(covered_by(t, x));
            } else if i > 0 && j == 0 {
                assert(covers(t[i - 1], x));
                assert(covered_by(t, x));
            } else if i > 0 && j > 0 {
                assert(covers(t[i - 1], x));
                assert(covers(t[j - 1], x));
            }
        }
    }
}

/// What the converter returns: an overflow error when the range would
/// pass the end of the address space, an empty list for a zero count,
/// and otherwise the greedy decomposition of the range.
pub open spec fn decompose_spec(start: u32, count: u64) -> Result<Seq<CidrBlock>, CoreError> {
    if start as int + count as int > 0x100000000 {
        Err(CoreError::Overflow)
    } else if count == 0 {
        Ok(Seq::empty())
    } else {
        Ok(decompose_blocks(start as int, start as int + count - 1))
    }
}

/// View of an executable converter result.
pub open spec fn result_view(r: Result<Vec<CidrBlock>, CoreError>) -> Result<
    Seq<CidrBlock>,
    CoreError,
> {
    match r {
        Ok(v) => Ok(v@),
        Err(e) => Err(e),
    }
}

/// Convert the inclusive range `[start, start + count - 1]` into the
/// ordered list of aligned canonical CIDR blocks that exactly tiles it.
/// Fails with an overflow error exactly when the range's end would pass
/// the end of the 32-bit address space; a zero count yields zero blocks.
pub fn decompose(start: u32, count: u64) -> (r: Result<Vec<CidrBlock>, CoreError>)
    ensures
        result_view(r) == decompose_spec(start, count),
        r is Ok <==> start as int + count as int <= 0x100000000,
        (r matches Ok(v) ==> forall|i: int|
            0 <= i < v@.len() ==> (#[trigger] v@[i]) is V4 && v@[i].wf()),
{
    if count > 0x100000000u64 - start as u64 {
        return Err(CoreError::Overflow);
    }
    if count == 0 {
        return Ok(Vec::new());
    }
    let end: u64 = start as u64 + count - 1;
    let mut cur: u64 = start as u64;
    let mut v: Vec<CidrBlock> = Vec::new();
    proof {
        assert(decompose_blocks(start as int, end as int) =~= v@ + decompose_blocks(
            cur as int,
            end as int,
        ));
    }
    while cur <= end
        invariant
            start as int <= cur as int,
            end as int == start as int + count - 1,
            end < 0x100000000,
            cur <= 0x200000000,
            decompose_blocks(start as int, end as int) == v@ + decompose_blocks(
                cur as int,
                end as int,
            ),
            forall|i: int| 0 <= i < v@.len() ==> (#[trigger] v@[i]) is V4 && v@[i].wf(),
        decreases end + 1 - cur,
    {
        let prefix: u8 = largest_ipv4_block(cur as u32, end as u32);
        let b = CidrBlock::V4 { addr: cur as u32, prefix };
        let ghost prev = v@;
        let ghost c = cur as int;
        let ghost en = end as int;
        let ghost eexp = block_exp(c, en);
        proof {
            lemma_block_exp(c, en);
            lemma_pow2_pos(eexp);
            assert(b.wf());
            assert(decompose_blocks(c, en) == seq![b] + decompose_blocks(c + pow2(eexp), en));
        }
        v.push(b);
        let e: u32 = 32 - (prefix as u32);
        let sz: u64 = pow2_u64(e);
        proof {
            assert(sz == pow2(eexp));
            assert(prev + decompose_blocks(c, en) =~= v@ + decompose_blocks(c + pow2(eexp), en));
        }
        cur = cur + sz;
    }
    proof {
        assert(decompose_blocks(cur as int, end as int) =~= Seq::<CidrBlock>::empty());
        assert(decompose_blocks(start as int, end as int) =~= v@);
    }
    Ok(v)
}

/// Coverage: the union of the addresses covered by `decompose`'s blocks
/// is exactly the integers `start .. start + count - 1`, and no address
/// lies in more than one block.
pub proof fn lemma_decompose_coverage(start: u32, count: u64)
    requires
        start as int + count as int <= 0x100000000,
    ensures
        ({
            let s = decompose_spec(start, count)->Ok_0;
            &&& forall|x: int| start <= x < start as int + count <==> #[trigger] covered_by(s, x)
            &&& forall|i: int, j: int, x: int|
                #![trigger covers(s[i], x), covers(s[j], x)]
                0 <= i < s.len() && 0 <= j < s.len() && covers(s[i], x) && covers(s[j], x) ==> i
                    == j
        }),
{
    if count > 0 {
        lemma_decompose_partition(start as int, start as int + count - 1);
    }
}

/// Canonicality: every emitted block is an IPv4 block whose network
/// address has all bits beyond its prefix length equal to zero.
pub proof fn lemma_decompose_canonical(start: u32, count: u64)
    requires
        start as int + count as int <= 0x100000000,
    ensures
        ({
            let s = decompose_spec(start, count)->Ok_0;
            forall|i: int| 0 <= i < s.len() ==> (#[trigger] s[i]) is V4 && s[i].wf()
        }),
{
    if count > 0 {
        lemma_decompose_tiling(start as int, start as int + count - 1);
    }
}

/// Order: blocks come in strictly increasing address order, and each
/// block starts exactly one past the end of the one before it — the
/// blocks are disjoint and leave no gap.
pub proof fn lemma_decompose_ordered(start: u32, count: u64)
    requires
        start as int + count as int <= 0x100000000,
    ensures
        ({
            let s = decompose_spec(start, count)->Ok_0;
            &&& forall|i: int|
                0 <= i < s.len() - 1 ==> block_addr(#[trigger] s[i + 1]) == block_addr(s[i])
                    + v4_size(s[i]) && block_addr(s[i]) < block_addr(s[i + 1])
            &&& forall|i: int, j: int|
                #![trigger block_addr(s[i]), block_addr(s[j])]
                0 <= i < j < s.len() ==> block_addr(s[i]) < block_addr(s[j])
        }),
{
    if count > 0 {
        lemma_decompose_tiling(start as int, start as int + count - 1);
        let s = decompose_spec(start, count)->Ok_0;
        assert forall|i: int| 0 <= i < s.len() - 1 implies block_addr(#[trigger] s[i + 1])
            == block_addr(s[i]) + v4_size(s[i]) && block_addr(s[i]) < block_addr(s[i + 1]) by {
            assert(s[i] is V4 && s[i].wf());
            lemma_pow2_pos((32 - crate::cidr::block_prefix(s[i])) as nat);
        }
    }
}

/// Size identity: the sum of `2^(32 - prefix)` over the emitted blocks
/// equals `count`.
pub proof fn lemma_decompose_size_identity(start: u32, count: u64)
    requires
        start as int + count as int <= 0x100000000,
    ensures
        sum_sizes(decompose_spec(start, count)->Ok_0) == count,
{
    if count > 0 {
        lemma_decompose_tiling(start as int, start as int + count - 1);
    }
}

/// Determinism and idempotence: the converter's result is a function of
/// its input alone, so two runs on identical input yield identical block
/// lists.
pub proof fn lemma_decompose_deterministic(
    r1: Result<Seq<CidrBlock>, CoreError>,
    r2: Result<Seq<CidrBlock>, CoreError>,
    start: u32,
    count: u64,
)
    requires
        r1 == decompose_spec(start, count),
        r2 == decompose_spec(start, count),
    ensures
        r1 == r2,
{
}

} // verus!
