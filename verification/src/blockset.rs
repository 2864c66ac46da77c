//! Ordered, duplicate-free sets of CIDR blocks: insertion keeps the total
//! block order at all times and rejects duplicates, so iteration needs no
//! separate sort pass.

use crate::cidr::{block_text, lemma_lt_total, lemma_lt_trans, CidrBlock};
use vstd::prelude::*;

verus! {

/// Strictly increasing in the block order: sorted, with no duplicates.
pub open spec fn sorted_strict(s: Seq<CidrBlock>) -> bool {
    forall|i: int, j: int| 0 <= i < j < s.len() ==> (#[trigger] s[i]).lt(#[trigger] s[j])
}

/// Insert a block into a sorted sequence at its ordered position; a block
/// already present leaves the sequence unchanged.
pub open spec fn insert_sorted(s: Seq<CidrBlock>, b: CidrBlock) -> Seq<CidrBlock>
    decreases s.len(),
{
    if s.len() == 0 {
        seq![b]
    } else if b.lt(s[0]) {
        seq![b] + s
    } else if b == s[0] {
        s
    } else {
        seq![s[0]] + insert_sorted(s.drop_first(), b)
    }
}

/// Inserting into a sorted sequence keeps it sorted, adds exactly the
/// given block to the members, and changes nothing when the block is
/// already present.
pub proof fn lemma_insert_sorted(s: Seq<CidrBlock>, b: CidrBlock)
    requires
        sorted_strict(s),
    ensures
        sorted_strict(insert_sorted(s, b)),
        forall|x: CidrBlock| #[trigger] insert_sorted(s, b).contains(x) <==> (s.contains(x) || x
            == b),
        insert_sorted(s, b).contains(b),
        s.contains(b) ==> insert_sorted(s, b) == s,
        !s.contains(b) ==> insert_sorted(s, b).len() == s.len() + 1,
    decreases s.len(),
{
    let r = insert_sorted(s, b);
    if s.len() == 0 {
        assert(r == seq![b]);
        assert(r[0] == b);
        assert forall|x: CidrBlock| #[trigger] r.contains(x) implies (s.contains(x) || x == b) by {
            let i = choose|i: int| 0 <= i < r.len() && r[i] == x;
            assert(i == 0);
        }
    } else if b.lt(s[0]) {
        assert(r == seq![b] + s);
        assert(r[0] == b);
        assert forall|i: int, j: int| 0 <= i < j < r.len() implies (#[trigger] r[i]).lt(
            #[trigger] r[j],
        ) by {
            if i == 0 {
                assert(r[j] == s[j - 1]);
                if j > 1 {
                    assert(s[0].lt(s[j - 1]));
                    lemma_lt_trans(b, s[0], s[j - 1]);
                }
            } else {
                assert(r[i] == s[i - 1] && r[j] == s[j - 1]);
            }
        }
        assert forall|x: CidrBlock| #[trigger] r.contains(x) implies (s.contains(x) || x == b) by {
            let i = choose|i: int| 0 <= i < r.len() && r[i] == x;
            if i > 0 {
                assert(s[i - 1] == x);
            }
        }
        assert forall|x: CidrBlock| s.contains(x) || x == b implies #[trigger] r.contains(x) by {
            if s.contains(x) {
                let i = choose|i: int| 0 <= i < s.len() && s[i] == x;
                assert(r[i + 1] == x);
            }
        }
        if s.contains(b) {
            let i = choose|i: int| 0 <= i < s.len() && s[i] == b;
            if i > 0 {
                assert(s[0].lt(s[i]));
            }
            lemma_lt_total(b, s[0]);
            assert(false);
        }
    } else if b == s[0] {
        assert(r == s);
        assert(s[0] == b);
        assert(s.contains(b));
    } else {
        let tail = s.drop_first();
        assert forall|i: int, j: int| 0 <= i < j < tail.len() implies (#[trigger] tail[i]).lt(
            #[trigger] tail[j],
        ) by {
            assert(tail[i] == s[i + 1] && tail[j] == s[j + 1]);
        }
        lemma_insert_sorted(tail, b);
        let rt = insert_sorted(tail, b);
        assert(r == seq![s[0]] + rt);
        lemma_lt_total(b, s[0]);
        assert(s[0].lt(b));
        assert forall|i: int, j: int| 0 <= i < j < r.len() implies (#[trigger] r[i]).lt(
            #[trigger] r[j],
        ) by {
            if i == 0 {
                assert(r[j] == rt[j - 1]);
                assert(rt.contains(rt[j - 1]));
                if tail.contains(rt[j - 1]) {
                    let k = choose|k: int| 0 <= k < tail.len() && tail[k] == rt[j - 1];
                    assert(s[k + 1] == rt[j - 1]);
                    assert(s[0].lt(s[k + 1]));
                }
            } else {
                assert(r[i] == rt[i - 1] && r[j] == rt[j - 1]);
            }
        }
        assert forall|x: CidrBlock| #[trigger] r.contains(x) implies (s.contains(x) || x == b) by {
            let i = choose|i: int| 0 <= i < r.len() && r[i] == x;
            if i == 0 {
                assert(s[0] == x);
            } else {
                assert(rt[i - 1] == x);
                assert(rt.contains(x));
                if tail.contains(x) {
                    let k = choose|k: int| 0 <= k < tail.len() && tail[k] == x;
                    assert(s[k + 1] == x);
                }
            }
        }
        assert forall|x: CidrBlock| s.contains(x) || x == b implies #[trigger] r.contains(x) by {
            if s.contains(x) {
                let i = choose|i: int| 0 <= i < s.len() && s[i] == x;
                if i == 0 {
                    assert(r[0] == x);
                } else {
                    assert(tail[i - 1] == x);
                    assert(tail.contains(x));
                    assert(rt.contains(x));
                    let k = choose|k: int| 0 <= k < rt.len() && rt[k] == x;
                    assert(r[k + 1] == x);
                }
            } else {
                assert(rt.contains(b));
                let k = choose|k: int| 0 <= k < rt.len() && rt[k] == b;
                assert(r[k + 1] == b);
            }
        }
        if s.contains(b) {
            let i = choose|i: int| 0 <= i < s.len() && s[i] == b;
            assert(i > 0);
            assert(tail[i - 1] == b);
            assert(tail.contains(b));
            assert(rt == tail);
            assert(r =~= s);
        } else {
            if tail.contains(b) {
                let k = choose|k: int| 0 <= k < tail.len() && tail[k] == b;
                assert(s[k + 1] == b);
                assert(false);
            }
        }
    }
}

/// Where the scan stopped is where `insert_sorted` puts the block: before
/// the first element not below it, or nowhere when that element is the
/// block itself.
proof fn lemma_insert_sorted_at(s: Seq<CidrBlock>, b: CidrBlock, i: int)
    requires
        sorted_strict(s),
        0 <= i <= s.len(),
        forall|k: int| 0 <= k < i ==> (#[trigger] s[k]).lt(b),
        i < s.len() ==> !s[i].lt(b),
    ensures
        i < s.len() && s[i] == b ==> insert_sorted(s, b) == s,
        !(i < s.len() && s[i] == b) ==> insert_sorted(s, b) == s.insert(i, b),
    decreases s.len(),
{
    let r = insert_sorted(s, b);
    if s.len() == 0 {
        assert(r =~= s.insert(0, b));
    } else if b.lt(s[0]) {
        lemma_lt_total(b, s[0]);
        assert(i == 0);
        assert(r =~= s.insert(0, b));
    } else if b == s[0] {
        lemma_lt_total(b, s[0]);
        assert(i == 0);
    } else {
        lemma_lt_total(b, s[0]);
        assert(s[0].lt(b));
        assert(i >= 1);
        let tail = s.drop_first();
        assert forall|p: int, q: int| 0 <= p < q < tail.len() implies (#[trigger] tail[p]).lt(
            #[trigger] tail[q],
        ) by {
            assert(tail[p] == s[p + 1] && tail[q] == s[q + 1]);
        }
        assert forall|k: int| 0 <= k < i - 1 implies (#[trigger] tail[k]).lt(b) by {
            assert(tail[k] == s[k + 1]);
        }
        assert(i - 1 < tail.len() ==> tail[i - 1] == s[i]);
        lemma_insert_sorted_at(tail, b, i - 1);
        if i < s.len() && s[i] == b {
            assert(insert_sorted(tail, b) == tail);
            assert(r =~= s);
        } else {
            assert(insert_sorted(tail, b) == tail.insert(i - 1, b));
            assert(r =~= s.insert(i, b));
        }
    }
}

/// An ordered sequence of unique CIDR blocks, one per country and family.
pub struct BlockSet {
    blocks: Vec<CidrBlock>,
}

impl View for BlockSet {
    type V = Seq<CidrBlock>;

    closed spec fn view(&self) -> Seq<CidrBlock> {
        self.blocks@
    }
}

impl BlockSet {
    /// Well-formed: the sequence is strictly sorted, so no two elements
    /// are equal and iteration follows the block order.
    pub open spec fn wf(self) -> bool {
        sorted_strict(self@)
    }

    /// The empty set.
    pub fn new() -> (r: BlockSet)
        ensures
            r@ == Seq::<CidrBlock>::empty(),
            r.wf(),
    {
        BlockSet { blocks: Vec::new() }
    }

    /// Number of blocks held.
    pub fn len(&self) -> (n: usize)
        ensures
            n == self@.len(),
    {
        self.blocks.len()
    }

    /// The block at a position of the order.
    pub fn get(&self, i: usize) -> (b: CidrBlock)
        requires
            i < self@.len(),
        ensures
            b == self@[i as int],
    {
        self.blocks[i]
    }

    /// Whether the set holds the given block.
    pub fn contains_block(&self, b: &CidrBlock) -> (r: bool)
        ensures
            r == self@.contains(*b),
    {
        let mut i: usize = 0;
        while i < self.blocks.len()
            invariant
                i <= self@.len(),
                forall|k: int| 0 <= k < i ==> self@[k] != *b,
        decreases self@.len() - i,
        {
            if self.blocks[i] == *b {
                return true;
            }
            i = i + 1;
        }
        false
    }

    /// Insert a block at its ordered position; inserting a block already
    /// present leaves the set unchanged.
    pub fn insert(&mut self, b: CidrBlock)
        requires
            old(self).wf(),
        ensures
            final(self)@ == insert_sorted(old(self)@, b),
            final(self).wf(),
            final(self)@.contains(b),
            forall|x: CidrBlock| #[trigger] final(self)@.contains(x) <==> (old(self)@.contains(x)
                || x == b),
            old(self)@.contains(b) ==> final(self)@ == old(self)@,
            !old(self)@.contains(b) ==> final(self)@.len() == old(self)@.len() + 1,
    {
        proof {
            lemma_insert_sorted(self@, b);
        }
        let mut lo: usize = 0;
        let mut hi: usize = self.blocks.len();
        while lo < hi
            invariant
                lo <= hi <= self@.len(),
                sorted_strict(self@),
                forall|k: int| 0 <= k < lo ==> (#[trigger] self@[k]).lt(b),
                forall|k: int| hi <= k < self@.len() ==> !(#[trigger] self@[k]).lt(b),
            decreases hi - lo,
        {
            let mid: usize = lo + (hi - lo) / 2;
            if self.blocks[mid].lt_exec(&b) {
                proof {
                    assert forall|k: int| 0 <= k < mid + 1 implies (#[trigger] self@[k]).lt(b) by {
                        if k < mid {
                            assert(self@[k].lt(self@[mid as int]));
                            lemma_lt_trans(self@[k], self@[mid as int], b);
                        }
                    }
                }
                lo = mid + 1;
            } else {
                proof {
                    assert forall|k: int| mid <= k < self@.len() implies !(#[trigger] self@[k]).lt(
                        b,
                    ) by {
                        if k > mid {
                            if self@[k].lt(b) {
                                assert(self@[mid as int].lt(self@[k as int]));
                                lemma_lt_trans(self@[mid as int], self@[k as int], b);
                            }
                        }
                    }
                }
                hi = mid;
            }
        }
        proof {
            lemma_insert_sorted_at(self@, b, lo as int);
        }
        if lo < self.blocks.len() {
            let at = self.blocks[lo];
            if at == b {
                return ;
            }
        }
        self.blocks.insert(lo, b);
    }

    /// Hand the ordered blocks over, consuming the set.
    pub fn into_vec(self) -> (v: Vec<CidrBlock>)
        ensures
            v@ == self@,
    {
        self.blocks
    }

    /// The set's blocks in CIDR text form, one per line, in set order,
    /// with no trailing newline.
    pub fn render_lines(&self) -> (r: Vec<u8>)
        requires
            forall|i: int| 0 <= i < self@.len() ==> (#[trigger] self@[i]).wf(),
        ensures
            r@ == joined_lines(self@),
    {
        let mut out: Vec<u8> = Vec::new();
        let n: usize = self.blocks.len();
        if n == 0 {
            return out;
        }
        let first = self.blocks[0];
        proof {
            assert(first == self@[0]);
        }
        let mut head: Vec<u8> = first.to_cidr_bytes();
        out.append(&mut head);
        let mut i: usize = 1;
        proof {
            assert(out@ =~= Seq::<u8>::empty() + block_text(self@[0]));
            assert(out@ + rest_lines(self@.skip(1)) =~= block_text(self@[0]) + rest_lines(
                self@.drop_first(),
            ));
        }
        while i < n
            invariant
                1 <= i <= n == self@.len(),
                forall|k: int| 0 <= k < self@.len() ==> (#[trigger] self@[k]).wf(),
                joined_lines(self@) == out@ + rest_lines(self@.skip(i as int)),
            decreases n - i,
        {
            let ghost prev = out@;
            let ghost suffix = self@.skip(i as int);
            out.push(0x0a);
            let b = self.blocks[i];
            let mut text: Vec<u8> = b.to_cidr_bytes();
            out.append(&mut text);
            proof {
                assert(suffix[0] == self@[i as int]);
                assert(suffix.drop_first() =~= self@.skip(i as int + 1));
                assert(rest_lines(suffix) == seq![0x0au8] + block_text(self@[i as int])
                    + rest_lines(self@.skip(i as int + 1)));
                assert(prev + rest_lines(suffix) =~= out@ + rest_lines(self@.skip(i as int + 1)));
            }
            i = i + 1;
        }
        proof {
            assert(self@.skip(n as int) =~= Seq::<CidrBlock>::empty());
            assert(out@ + rest_lines(Seq::<CidrBlock>::empty()) =~= out@);
        }
        out
    }
}

/// The lines after the first: each later block's text preceded by a
/// newline.
pub open spec fn rest_lines(s: Seq<CidrBlock>) -> Seq<u8>
    decreases s.len(),
{
    if s.len() == 0 {
        Seq::empty()
    } else {
        seq![0x0au8] + block_text(s[0]) + rest_lines(s.drop_first())
    }
}

/// The blocks of a sequence in CIDR text form, one per line, separated by
/// newlines.
pub open spec fn joined_lines(s: Seq<CidrBlock>) -> Seq<u8> {
    if s.len() == 0 {
        Seq::empty()
    } else {
        block_text(s[0]) + rest_lines(s.drop_first())
    }
}

/// Dedup: inserting the same block a second time leaves the set — and so
/// its size — unchanged.
pub proof fn lemma_insert_dedup(s: Seq<CidrBlock>, b: CidrBlock)
    requires
        sorted_strict(s),
    ensures
        insert_sorted(insert_sorted(s, b), b) == insert_sorted(s, b),
        insert_sorted(insert_sorted(s, b), b).len() == insert_sorted(s, b).len(),
{
    lemma_insert_sorted(s, b);
    lemma_insert_sorted(insert_sorted(s, b), b);
}

} // verus!
