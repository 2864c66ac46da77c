//! Aggregator: drives the record parser across all source texts for one
//! country and accumulates every resulting block into two ordered,
//! duplicate-free sets, one per address family.

use crate::blockset::BlockSet;
use crate::cidr::CidrBlock;
use crate::parse::{parse_ip_lines, parse_ip_lines_spec};
use vstd::prelude::*;

verus! {

/// Some text of the sequence emits this IPv4 block for the country.
pub open spec fn emitted_v4(texts: Seq<Vec<u8>>, country: Seq<u8>, b: CidrBlock) -> bool {
    exists|t: int|
        0 <= t < texts.len() && parse_ip_lines_spec((#[trigger] texts[t])@, country).0.contains(b)
}

/// Some text of the sequence emits this IPv6 block for the country.
pub open spec fn emitted_v6(texts: Seq<Vec<u8>>, country: Seq<u8>, b: CidrBlock) -> bool {
    exists|t: int|
        0 <= t < texts.len() && parse_ip_lines_spec((#[trigger] texts[t])@, country).1.contains(b)
}

/// A sequence extended by one element holds exactly the old elements and
/// the new one.
proof fn lemma_contains_push(s: Seq<CidrBlock>, x: CidrBlock, b: CidrBlock)
    ensures
        s.push(x).contains(b) <==> (s.contains(b) || b == x),
{
    if s.push(x).contains(b) {
        let i = choose|i: int| 0 <= i < s.push(x).len() && s.push(x)[i] == b;
        if i < s.len() {
            assert(s[i] == b);
        }
    }
    if s.contains(b) {
        let i = choose|i: int| 0 <= i < s.len() && s[i] == b;
        assert(s.push(x)[i] == b);
    }
    if b == x {
        assert(s.push(x)[s.len() as int] == b);
    }
}

/// One more text emits a block exactly when the earlier texts already
/// emitted it or the new text does.
proof fn lemma_emitted_extend(texts: Seq<Vec<u8>>, country: Seq<u8>, t: int, b: CidrBlock)
    requires
        0 <= t < texts.len(),
    ensures
        emitted_v4(texts.take(t + 1), country, b) <==> (emitted_v4(texts.take(t), country, b)
            || parse_ip_lines_spec(texts[t]@, country).0.contains(b)),
        emitted_v6(texts.take(t + 1), country, b) <==> (emitted_v6(texts.take(t), country, b)
            || parse_ip_lines_spec(texts[t]@, country).1.contains(b)),
{
    let pre = texts.take(t);
    let cur = texts.take(t + 1);
    if emitted_v4(cur, country, b) {
        let k = choose|k: int|
            0 <= k < cur.len() && parse_ip_lines_spec((#[trigger] cur[k])@, country).0.contains(b);
        if k < t {
            assert(pre[k] == cur[k]);
            assert(parse_ip_lines_spec(pre[k]@, country).0.contains(b));
        } else {
            assert(cur[k] == texts[t]);
        }
    }
    if emitted_v4(pre, country, b) {
        let k = choose|k: int|
            0 <= k < pre.len() && parse_ip_lines_spec((#[trigger] pre[k])@, country).0.contains(b);
        assert(cur[k] == pre[k]);
        assert(parse_ip_lines_spec(cur[k]@, country).0.contains(b));
    }
    if parse_ip_lines_spec(texts[t]@, country).0.contains(b) {
        assert(cur[t] == texts[t]);
        assert(parse_ip_lines_spec(cur[t]@, country).0.contains(b));
    }
    if emitted_v6(cur, country, b) {
        let k = choose|k: int|
            0 <= k < cur.len() && parse_ip_lines_spec((#[trigger] cur[k])@, country).1.contains(b);
        if k < t {
            assert(pre[k] == cur[k]);
            assert(parse_ip_lines_spec(pre[k]@, country).1.contains(b));
        } else {
            assert(cur[k] == texts[t]);
        }
    }
    if emitted_v6(pre, country, b) {
        let k = choose|k: int|
            0 <= k < pre.len() && parse_ip_lines_spec((#[trigger] pre[k])@, country).1.contains(b);
        assert(cur[k] == pre[k]);
        assert(parse_ip_lines_spec(cur[k]@, country).1.contains(b));
    }
    if parse_ip_lines_spec(texts[t]@, country).1.contains(b) {
        assert(cur[t] == texts[t]);
        assert(parse_ip_lines_spec(cur[t]@, country).1.contains(b));
    }
}

/// Aggregate every source text for one country: parse each text, convert
/// its records, and collect the blocks into an IPv4 set and an IPv6 set.
/// A block appearing in several texts, or several times in one text,
/// appears exactly once per set; each set is strictly ordered; a text
/// whose lines all fail or mismatch simply contributes nothing.
pub fn parse_and_collect_ips(country_code: &[u8], rir_texts: &[Vec<u8>]) -> (r: (
    BlockSet,
    BlockSet,
))
    ensures
        r.0.wf(),
        r.1.wf(),
        forall|b: CidrBlock| #[trigger] r.0@.contains(b) <==> emitted_v4(
            rir_texts@,
            country_code@,
            b,
        ),
        forall|b: CidrBlock| #[trigger] r.1@.contains(b) <==> emitted_v6(
            rir_texts@,
            country_code@,
            b,
        ),
        forall|i: int| 0 <= i < r.0@.len() ==> (#[trigger] r.0@[i]) is V4 && r.0@[i].wf(),
        forall|i: int| 0 <= i < r.1@.len() ==> (#[trigger] r.1@[i]) is V6 && r.1@[i].wf(),
{
    let mut set4: BlockSet = BlockSet::new();
    let mut set6: BlockSet = BlockSet::new();
    let nt: usize = rir_texts.len();
    let mut t: usize = 0;
    while t < nt
        invariant
            t <= nt == rir_texts@.len(),
            set4.wf(),
            set6.wf(),
            forall|b: CidrBlock| #[trigger] set4@.contains(b) <==> emitted_v4(
                rir_texts@.take(t as int),
                country_code@,
                b,
            ),
            forall|b: CidrBlock| #[trigger] set6@.contains(b) <==> emitted_v6(
                rir_texts@.take(t as int),
                country_code@,
                b,
            ),
            forall|i: int| 0 <= i < set4@.len() ==> (#[trigger] set4@[i]) is V4 && set4@[i].wf(),
            forall|i: int| 0 <= i < set6@.len() ==> (#[trigger] set6@[i]) is V6 && set6@[i].wf(),
        decreases nt - t,
    {
        let (bs4, bs6) = parse_ip_lines(rir_texts[t].as_slice(), country_code);
        let ghost gtexts = rir_texts@.take(t as int);
        let ghost spec4 = parse_ip_lines_spec(rir_texts@[t as int]@, country_code@).0;
        let ghost spec6 = parse_ip_lines_spec(rir_texts@[t as int]@, country_code@).1;
        let m4: usize = bs4.len();
        let mut j: usize = 0;
        while j < m4
            invariant
                j <= m4 == bs4@.len(),
                bs4@ == spec4,
                set4.wf(),
                forall|b: CidrBlock| #[trigger] set4@.contains(b) <==> (emitted_v4(
                    gtexts,
                    country_code@,
                    b,
                ) || bs4@.take(j as int).contains(b)),
                forall|k: int| 0 <= k < bs4@.len() ==> (#[trigger] bs4@[k]) is V4 && bs4@[k].wf(),
                forall|i: int| 0 <= i < set4@.len() ==> (#[trigger] set4@[i]) is V4
                    && set4@[i].wf(),
            decreases m4 - j,
        {
            let b = bs4[j];
            set4.insert(b);
            proof {
                assert(bs4@.take(j as int + 1) =~= bs4@.take(j as int).push(bs4@[j as int]));
                assert forall|x: CidrBlock| #[trigger] set4@.contains(x) <==> (emitted_v4(
                    gtexts,
                    country_code@,
                    x,
                ) || bs4@.take(j as int + 1).contains(x)) by {
                    lemma_contains_push(bs4@.take(j as int), bs4@[j as int], x);
                }
                assert forall|i: int| 0 <= i < set4@.len() implies (#[trigger] set4@[i]) is V4
                    && set4@[i].wf() by {
                    assert(set4@.contains(set4@[i]));
                }
            }
            j = j + 1;
        }
        let m6: usize = bs6.len();
        let mut j6: usize = 0;
        proof {
            assert(bs4@.take(m4 as int) =~= bs4@);
            assert(bs6@.take(0) =~= Seq::<CidrBlock>::empty());
        }
        while j6 < m6
            invariant
                j6 <= m6 == bs6@.len(),
                bs6@ == spec6,
                set6.wf(),
                forall|b: CidrBlock| #[trigger] set6@.contains(b) <==> (emitted_v6(
                    gtexts,
                    country_code@,
                    b,
                ) || bs6@.take(j6 as int).contains(b)),
                forall|k: int| 0 <= k < bs6@.len() ==> (#[trigger] bs6@[k]) is V6 && bs6@[k].wf(),
                forall|i: int| 0 <= i < set6@.len() ==> (#[trigger] set6@[i]) is V6
                    && set6@[i].wf(),
            decreases m6 - j6,
        {
            let b = bs6[j6];
            set6.insert(b);
            proof {
                assert(bs6@.take(j6 as int + 1) =~= bs6@.take(j6 as int).push(bs6@[j6 as int]));
                assert forall|x: CidrBlock| #[trigger] set6@.contains(x) <==> (emitted_v6(
                    gtexts,
                    country_code@,
                    x,
                ) || bs6@.take(j6 as int + 1).contains(x)) by {
                    lemma_contains_push(bs6@.take(j6 as int), bs6@[j6 as int], x);
                }
                assert forall|i: int| 0 <= i < set6@.len() implies (#[trigger] set6@[i]) is V6
                    && set6@[i].wf() by {
                    assert(set6@.contains(set6@[i]));
                }
            }
            j6 = j6 + 1;
        }
        proof {
            assert(bs6@.take(m6 as int) =~= bs6@);
            assert forall|b: CidrBlock| #[trigger] set4@.contains(b) <==> emitted_v4(
                rir_texts@.take(t as int + 1),
                country_code@,
                b,
            ) by {
                lemma_emitted_extend(rir_texts@, country_code@, t as int, b);
            }
            assert forall|b: CidrBlock| #[trigger] set6@.contains(b) <==> emitted_v6(
                rir_texts@.take(t as int + 1),
                country_code@,
                b,
            ) by {
                lemma_emitted_extend(rir_texts@, country_code@, t as int, b);
            }
        }
        t = t + 1;
    }
    proof {
        assert(rir_texts@.take(nt as int) =~= rir_texts@);
    }
    (set4, set6)
}

} // verus!
