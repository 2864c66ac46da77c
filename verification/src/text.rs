//! Byte-level text primitives for the record parser: searching, splitting
//! on a separator, and decimal / dotted-quad parsing.

use vstd::prelude::*;
use vstd::slice::{slice_subrange, slice_to_vec};

verus! {

/// Index of the first occurrence of a byte, if any.
pub open spec fn find_byte(s: Seq<u8>, b: u8) -> Option<int>
    decreases s.len(),
{
    if s.len() == 0 {
        None
    } else if s[0] == b {
        Some(0)
    } else {
        match find_byte(s.drop_first(), b) {
            Some(i) => Some(i + 1),
            None => None,
        }
    }
}

/// `find_byte` returns the first occurrence: the byte stands there and
/// nowhere earlier; `None` means the byte does not occur at all.
pub proof fn lemma_find_byte(s: Seq<u8>, b: u8)
    ensures
        match find_byte(s, b) {
            Some(i) => 0 <= i < s.len() && s[i] == b && forall|k: int| 0 <= k < i ==> s[k] != b,
            None => forall|k: int| 0 <= k < s.len() ==> s[k] != b,
        },
    decreases s.len(),
{
    if s.len() > 0 && s[0] != b {
        let d = s.drop_first();
        lemma_find_byte(d, b);
        match find_byte(d, b) {
            Some(i) => {
                assert(s[i + 1] == d[i]);
                assert forall|k: int| 0 <= k < i + 1 implies s[k] != b by {
                    if k > 0 {
                        assert(d[k - 1] == s[k]);
                    }
                }
            },
            None => {
                assert forall|k: int| 0 <= k < s.len() implies s[k] != b by {
                    if k > 0 {
                        assert(d[k - 1] == s[k]);
                    }
                }
            },
        }
    }
}

/// Whether a byte occurs in the sequence.
pub open spec fn contains_byte(s: Seq<u8>, b: u8) -> bool {
    exists|i: int| 0 <= i < s.len() && s[i] == b
}

/// Whether `pat` occurs as a contiguous subsequence of `s`.
pub open spec fn contains_seq(s: Seq<u8>, pat: Seq<u8>) -> bool {
    exists|i: int| 0 <= i <= s.len() - pat.len() && #[trigger] s.subrange(i, i + pat.len()) == pat
}

/// First occurrence of a byte in a slice.
pub fn find_byte_exec(s: &[u8], b: u8) -> (r: Option<usize>)
    ensures
        match r {
            Some(i) => find_byte(s@, b) == Some(i as int),
            None => find_byte(s@, b) is None,
        },
{
    proof {
        lemma_find_byte(s@, b);
    }
    let n: usize = s.len();
    let mut i: usize = 0;
    while i < n
        invariant
            i <= n == s@.len(),
            forall|k: int| 0 <= k < i ==> s@[k] != b,
            match find_byte(s@, b) {
                Some(j) => 0 <= j < s@.len() && s@[j] == b && forall|k: int|
                    0 <= k < j ==> s@[k] != b,
                None => forall|k: int| 0 <= k < s@.len() ==> s@[k] != b,
            },
        decreases n - i,
    {
        if s[i] == b {
            return Some(i);
        }
        i = i + 1;
    }
    None
}

/// Whether a byte occurs in a slice.
pub fn contains_byte_exec(s: &[u8], b: u8) -> (r: bool)
    ensures
        r == contains_byte(s@, b),
{
    proof {
        lemma_find_byte(s@, b);
    }
    match find_byte_exec(s, b) {
        Some(i) => {
            proof {
                let j = find_byte(s@, b)->Some_0;
                assert(s@[j] == b);
            }
            true
        },
        None => false,
    }
}

/// Whether `pat` occurs as a contiguous subsequence of a slice.
pub fn contains_seq_exec(s: &[u8], pat: &[u8]) -> (r: bool)
    ensures
        r == contains_seq(s@, pat@),
{
    let n: usize = s.len();
    let m: usize = pat.len();
    if m > n {
        return false;
    }
    let mut i: usize = 0;
    while i <= n - m
        invariant
            m <= n == s@.len(),
            m == pat@.len(),
            i <= n - m + 1,
            forall|k: int| 0 <= k < i ==> #[trigger] s@.subrange(k, k + pat@.len()) != pat@,
        decreases n - m + 1 - i,
    {
        let mut j: usize = 0;
        let mut hit: bool = true;
        while j < m
            invariant
                m <= n == s@.len(),
                m == pat@.len(),
                i <= n - m,
                j <= m,
                hit <==> forall|k: int| 0 <= k < j ==> s@[i + k] == pat@[k],
            decreases m - j,
        {
            if s[i + j] != pat[j] {
                hit = false;
                j = m;
            } else {
                j = j + 1;
            }
        }
        if hit {
            proof {
                assert(s@.subrange(i as int, i as int + pat@.len()) =~= pat@);
            }
            return true;
        }
        proof {
            if s@.subrange(i as int, i as int + pat@.len()) == pat@ {
                assert(forall|k: int|
                    0 <= k < pat@.len() ==> s@[i + k] == #[trigger] s@.subrange(
                        i as int,
                        i as int + pat@.len(),
                    )[k]);
                assert(false);
            }
        }
        i = i + 1;
    }
    false
}

/// Whether two byte slices hold the same bytes.
pub fn bytes_eq(a: &[u8], b: &[u8]) -> (r: bool)
    ensures
        r == (a@ == b@),
{
    let n: usize = a.len();
    if n != b.len() {
        return false;
    }
    let mut i: usize = 0;
    while i < n
        invariant
            i <= n == a@.len() == b@.len(),
            forall|k: int| 0 <= k < i ==> a@[k] == b@[k],
        decreases n - i,
    {
        if a[i] != b[i] {
            return false;
        }
        i = i + 1;
    }
    proof {
        assert(a@ =~= b@);
    }
    true
}

/// Split on a separator byte: the sequence of chunks between occurrences
/// of the separator, always at least one chunk.
pub open spec fn split_on(s: Seq<u8>, sep: u8) -> Seq<Seq<u8>>
    decreases s.len(),
    via split_on_dec
{
    match find_byte(s, sep) {
        Some(i) => seq![s.take(i)] + split_on(s.skip(i + 1), sep),
        None => seq![s],
    }
}

#[via_fn]
proof fn split_on_dec(s: Seq<u8>, sep: u8) {
    lemma_find_byte(s, sep);
}

/// Split a slice on a separator byte.
pub fn split_on_exec(s: &[u8], sep: u8) -> (r: Vec<Vec<u8>>)
    ensures
        r.deep_view() == split_on(s@, sep),
{
    let mut out: Vec<Vec<u8>> = Vec::new();
    let mut cur: usize = 0;
    let n: usize = s.len();
    proof {
        assert(s@.skip(0) =~= s@);
        assert(out.deep_view() =~= Seq::<Seq<u8>>::empty());
        assert(out.deep_view() + split_on(s@.skip(0), sep) =~= split_on(s@, sep));
    }
    while cur < n
        invariant
            cur <= n == s@.len(),
            split_on(s@, sep) == out.deep_view() + split_on(s@.skip(cur as int), sep),
        decreases n - cur,
    {
        let rest: &[u8] = slice_subrange(s, cur, n);
        let ghost prev = out.deep_view();
        match find_byte_exec(rest, sep) {
            Some(i) => {
                proof {
                    lemma_find_byte(rest@, sep);
                }
                let chunk: Vec<u8> = slice_to_vec(slice_subrange(rest, 0, i));
                proof {
                    assert(split_on(rest@, sep) == seq![rest@.take(i as int)] + split_on(
                        rest@.skip(i as int + 1),
                        sep,
                    ));
                    assert(chunk@ =~= rest@.take(i as int));
                    assert(rest@.skip(i as int + 1) =~= s@.skip(cur as int + i as int + 1));
                }
                out.push(chunk);
                proof {
                    assert(out.deep_view() =~~= prev.push(rest@.take(i as int)));
                    assert(prev + split_on(s@.skip(cur as int), sep) =~= out.deep_view()
                        + split_on(s@.skip(cur as int + i as int + 1), sep));
                }
                cur = cur + i + 1;
            },
            None => {
                let chunk: Vec<u8> = slice_to_vec(rest);
                proof {
                    assert(split_on(rest@, sep) == seq![rest@]);
                }
                out.push(chunk);
                proof {
                    assert(out.deep_view() =~~= prev.push(rest@));
                    assert(prev + split_on(s@.skip(cur as int), sep) =~= out.deep_view());
                    assert(split_on(s@, sep) == out.deep_view());
                }
                return out;
            },
        }
    }
    let ghost prev = out.deep_view();
    let empty_chunk: Vec<u8> = Vec::new();
    out.push(empty_chunk);
    proof {
        assert(s@.skip(cur as int) =~= Seq::<u8>::empty());
        assert(split_on(s@.skip(cur as int), sep) == seq![s@.skip(cur as int)]);
        let e: Seq<u8> = Seq::empty();
        assert(out.deep_view() =~~= prev.push(e));
        assert(prev + seq![s@.skip(cur as int)] =~= out.deep_view());
    }
    out
}

/// A decimal digit.
pub open spec fn is_digit(b: u8) -> bool {
    0x30 <= b <= 0x39
}

/// A non-empty run of decimal digits.
pub open spec fn is_dec(s: Seq<u8>) -> bool {
    s.len() > 0 && forall|i: int| 0 <= i < s.len() ==> is_digit(#[trigger] s[i])
}

/// Numeric value of a digit string, most significant digit first.
pub open spec fn dec_val(s: Seq<u8>) -> int
    decreases s.len(),
{
    if s.len() == 0 {
        0
    } else {
        dec_val(s.drop_last()) * 10 + (s.last() - 0x30)
    }
}

/// The value of a digit string is never negative, and an extension of a
/// digit string never has a smaller value than the string itself.
pub proof fn lemma_dec_val_bounds(s: Seq<u8>)
    requires
        forall|i: int| 0 <= i < s.len() ==> is_digit(#[trigger] s[i]),
    ensures
        dec_val(s) >= 0,
        forall|i: int| 0 <= i <= s.len() ==> dec_val(#[trigger] s.take(i)) <= dec_val(s),
    decreases s.len(),
{
    if s.len() == 0 {
    } else {
        let d = s.drop_last();
        assert(forall|i: int| 0 <= i < d.len() ==> d[i] == #[trigger] s[i]);
        lemma_dec_val_bounds(d);
        assert forall|i: int| 0 <= i <= s.len() implies dec_val(#[trigger] s.take(i)) <= dec_val(
            s,
        ) by {
            if i < s.len() {
                assert(s.take(i) =~= d.take(i));
                assert(dec_val(d.take(i)) <= dec_val(d));
            } else {
                assert(s.take(i) =~= s);
            }
        }
    }
}

/// Parse a decimal `u64`: defined exactly when the string is a non-empty
/// run of digits whose value fits in 64 bits.
pub open spec fn parse_dec_u64(s: Seq<u8>) -> Option<u64> {
    if is_dec(s) && dec_val(s) <= u64::MAX {
        Some(dec_val(s) as u64)
    } else {
        None
    }
}

/// Parse a decimal `u64` from a slice.
pub fn parse_dec_u64_exec(s: &[u8]) -> (r: Option<u64>)
    ensures
        r == parse_dec_u64(s@),
{
    let n: usize = s.len();
    if n == 0 {
        return None;
    }
    let mut acc: u64 = 0;
    let mut i: usize = 0;
    while i < n
        invariant
            i <= n == s@.len(),
            n > 0,
            forall|k: int| 0 <= k < i ==> is_digit(#[trigger] s@[k]),
            acc == dec_val(s@.take(i as int)),
        decreases n - i,
    {
        let c: u8 = s[i];
        if c < 0x30 || c > 0x39 {
            return None;
        }
        let d: u64 = (c - 0x30) as u64;
        proof {
            assert(s@.take(i as int + 1).drop_last() =~= s@.take(i as int));
            assert(s@.take(i as int + 1).last() == s@[i as int]);
        }
        if acc > (u64::MAX - d) / 10 {
            proof {
                if is_dec(s@) {
                    lemma_dec_val_bounds(s@);
                    assert(dec_val(s@.take(i as int + 1)) <= dec_val(s@));
                    assert(dec_val(s@.take(i as int + 1)) == acc * 10 + d);
                    assert(acc * 10 + d > u64::MAX) by (nonlinear_arith)
                        requires
                            acc > (u64::MAX - d) / 10,
                            0 <= d <= 9,
                            acc >= 0,
                    ;
                }
            }
            return None;
        }
        acc = acc * 10 + d;
        i = i + 1;
    }
    proof {
        assert(s@.take(n as int) =~= s@);
    }
    Some(acc)
}

/// A dotted-quad octet: one to three digits, no leading zero unless the
/// octet is exactly `0`, value at most 255.
pub open spec fn is_octet(s: Seq<u8>) -> bool {
    is_dec(s) && s.len() <= 3 && (s[0] != 0x30 || s.len() == 1) && dec_val(s) <= 255
}

/// Parse one octet of a dotted-quad address.
pub fn parse_octet_exec(s: &[u8]) -> (r: Option<u8>)
    ensures
        r matches Some(v) ==> is_octet(s@) && v == dec_val(s@),
        r is None ==> !is_octet(s@),
{
    let n: usize = s.len();
    if n == 0 || n > 3 {
        return None;
    }
    if s[0] == 0x30 && n != 1 {
        return None;
    }
    let mut acc: u32 = 0;
    let mut i: usize = 0;
    while i < n
        invariant
            i <= n == s@.len(),
            1 <= n <= 3,
            forall|k: int| 0 <= k < i ==> is_digit(#[trigger] s@[k]),
            acc == dec_val(s@.take(i as int)),
            i == 0 ==> acc == 0,
            i == 1 ==> acc <= 9,
            i == 2 ==> acc <= 99,
            i == 3 ==> acc <= 999,
        decreases n - i,
    {
        let c: u8 = s[i];
        if c < 0x30 || c > 0x39 {
            return None;
        }
        proof {
            assert(s@.take(i as int + 1).drop_last() =~= s@.take(i as int));
            assert(s@.take(i as int + 1).last() == s@[i as int]);
        }
        acc = acc * 10 + (c - 0x30) as u32;
        i = i + 1;
    }
    proof {
        assert(s@.take(n as int) =~= s@);
    }
    if acc > 255 {
        return None;
    }
    Some(acc as u8)
}

/// Parse a dotted-quad IPv4 address: exactly four octets separated by
/// dots, combined most significant octet first.
pub open spec fn parse_ipv4_addr(s: Seq<u8>) -> Option<u32> {
    let parts = split_on(s, 0x2e);
    if parts.len() == 4 && is_octet(parts[0]) && is_octet(parts[1]) && is_octet(parts[2])
        && is_octet(parts[3]) {
        Some(
            (dec_val(parts[0]) * 0x1000000 + dec_val(parts[1]) * 0x10000 + dec_val(parts[2]) * 0x100
                + dec_val(parts[3])) as u32,
        )
    } else {
        None
    }
}

/// Parse a dotted-quad IPv4 address from a slice.
pub fn parse_ipv4_addr_exec(s: &[u8]) -> (r: Option<u32>)
    ensures
        r == parse_ipv4_addr(s@),
{
    let parts: Vec<Vec<u8>> = split_on_exec(s, 0x2e);
    proof {
        assert(parts.deep_view().len() == parts@.len());
        assert(forall|i: int| 0 <= i < parts@.len() ==> parts.deep_view()[i] == (#[trigger] parts@[i])@);
    }
    if parts.len() != 4 {
        return None;
    }
    let o0 = match parse_octet_exec(parts[0].as_slice()) {
        Some(v) => v,
        None => {
            return None;
        },
    };
    let o1 = match parse_octet_exec(parts[1].as_slice()) {
        Some(v) => v,
        None => {
            return None;
        },
    };
    let o2 = match parse_octet_exec(parts[2].as_slice()) {
        Some(v) => v,
        None => {
            return None;
        },
    };
    let o3 = match parse_octet_exec(parts[3].as_slice()) {
        Some(v) => v,
        None => {
            return None;
        },
    };
    Some((o0 as u32) * 0x1000000 + (o1 as u32) * 0x10000 + (o2 as u32) * 0x100 + (o3 as u32))
}

} // verus!
