//! Record parser for RIR delegated-extended statistics: one pipe-delimited
//! allocation record per line, filtered by country code and address
//! family, with IPv4 ranges handed to the converter and IPv6 prefixes
//! passed through.

use crate::cidr::{canon_v6, CidrBlock};
use crate::convert::{decompose, decompose_spec};
use crate::text::{
    bytes_eq, contains_byte, contains_byte_exec, contains_seq, contains_seq_exec, find_byte,
    find_byte_exec, lemma_find_byte, parse_dec_u64, parse_dec_u64_exec, parse_ipv4_addr,
    parse_ipv4_addr_exec, split_on, split_on_exec,
};
use crate::CoreError;
use vstd::prelude::*;
use vstd::slice::{slice_subrange, slice_to_vec};

verus! {

/// The family-dependent payload of an allocation record: IPv4 records
/// carry a start address and an address count, IPv6 records an address
/// and a prefix length.
#[derive(Clone, Copy, Debug, PartialEq, Eq, Structural)]
pub enum IpRange {
    V4 { start: u32, count: u64 },
    V6 { addr: u128, prefix: u8 },
}

/// One allocation record of a delegated-extended file: registry name,
/// two-letter country code, the family-dependent range, and a status tag
/// (empty when the line carries none).
#[derive(Debug, PartialEq, Eq)]
pub struct AllocationRecord {
    pub registry: Vec<u8>,
    pub country: Vec<u8>,
    pub range: IpRange,
    pub status: Vec<u8>,
}

/// Mathematical view of an allocation record.
pub struct RecordView {
    pub registry: Seq<u8>,
    pub country: Seq<u8>,
    pub range: IpRange,
    pub status: Seq<u8>,
}

impl View for AllocationRecord {
    type V = RecordView;

    open spec fn view(&self) -> RecordView {
        RecordView {
            registry: self.registry@,
            country: self.country@,
            range: self.range,
            status: self.status@,
        }
    }
}

/// The bytes of the `ipv4` type tag.
pub open spec fn ipv4_tag() -> Seq<u8> {
    seq![0x69u8, 0x70u8, 0x76u8, 0x34u8]
}

/// The bytes of the `ipv6` type tag.
pub open spec fn ipv6_tag() -> Seq<u8> {
    seq![0x69u8, 0x70u8, 0x76u8, 0x36u8]
}

/// The bytes of the word `reserved`.
pub open spec fn reserved_word() -> Seq<u8> {
    seq![0x72u8, 0x65u8, 0x73u8, 0x65u8, 0x72u8, 0x76u8, 0x65u8, 0x64u8]
}

/// What ipnet's IPv6 network parser returns on `start/value`: the network
/// address and prefix length, or nothing when the text is not a valid
/// IPv6 network.
pub uninterp spec fn ipv6_net_of(start: Seq<u8>, value: Seq<u8>) -> Option<(u128, u8)>;

/// Relies on ipnet's `Ipv6Net` string parser (`FromStr`): the result is a
/// function of the two fields alone; a parse succeeds only with a prefix
/// length of at most 128, and the address is returned as written, without
/// truncation of host bits.
#[verifier::external_body]
fn parse_ipv6_net(start: &[u8], value: &[u8]) -> (r: Option<(u128, u8)>)
    ensures
        r == ipv6_net_of(start@, value@),
        r matches Some(p) ==> p.1 <= 128,
{
    let s = match core::str::from_utf8(start) {
        Ok(s) => s,
        Err(_) => return None,
    };
    let v = match core::str::from_utf8(value) {
        Ok(v) => v,
        Err(_) => return None,
    };
    match format!("{}/{}", s, v).parse::<ipnet::Ipv6Net>() {
        Ok(n) => Some((u128::from(n.addr()), n.prefix_len())),
        Err(_) => None,
    }
}

/// Status field of a split line: the seventh field when present.
pub open spec fn status_of(fields: Seq<Seq<u8>>) -> Seq<u8> {
    if fields.len() >= 7 {
        fields[6]
    } else {
        Seq::empty()
    }
}

/// What the record parser returns on one line: `Ok(None)` for a line that
/// is skipped (comment, summary, reserved, too few fields, other country,
/// other family), a format error for a matching line whose fields do not
/// parse, and otherwise the allocation record.
pub open spec fn parse_line_spec(line: Seq<u8>, country: Seq<u8>) -> Result<
    Option<RecordView>,
    CoreError,
> {
    if line.len() > 0 && line[0] == 0x23 {
        Ok(None)
    } else if contains_byte(line, 0x2a) {
        Ok(None)
    } else if contains_seq(line, reserved_word()) {
        Ok(None)
    } else {
        let fields = split_on(line, 0x7c);
        if fields.len() < 5 {
            Ok(None)
        } else if fields[1] != country {
            Ok(None)
        } else if fields[2] == ipv4_tag() {
            match (parse_ipv4_addr(fields[3]), parse_dec_u64(fields[4])) {
                (Some(start), Some(count)) => Ok(
                    Some(
                        RecordView {
                            registry: fields[0],
                            country: fields[1],
                            range: IpRange::V4 { start, count },
                            status: status_of(fields),
                        },
                    ),
                ),
                _ => Err(CoreError::Format),
            }
        } else if fields[2] == ipv6_tag() {
            match ipv6_net_of(fields[3], fields[4]) {
                Some((addr, prefix)) => Ok(
                    Some(
                        RecordView {
                            registry: fields[0],
                            country: fields[1],
                            range: IpRange::V6 { addr, prefix },
                            status: status_of(fields),
                        },
                    ),
                ),
                None => Err(CoreError::Format),
            }
        } else {
            Ok(None)
        }
    }
}

/// View of an executable record-parser result.
pub open spec fn rec_result_view(r: Result<Option<AllocationRecord>, CoreError>) -> Result<
    Option<RecordView>,
    CoreError,
> {
    match r {
        Ok(Some(rec)) => Ok(Some(rec@)),
        Ok(None) => Ok(None),
        Err(e) => Err(e),
    }
}

/// Parse one line of a delegated-extended file against a country filter.
pub fn parse_record_line(line: &[u8], country: &[u8]) -> (r: Result<
    Option<AllocationRecord>,
    CoreError,
>)
    ensures
        rec_result_view(r) == parse_line_spec(line@, country@),
        (r matches Ok(rec_opt) ==> (rec_opt matches Some(rec) ==> (rec.range matches IpRange::V6 {
            prefix,
            ..
        } ==> prefix <= 128))),
{
    if line.len() > 0 {
        let c0: u8 = line[0];
        if c0 == 0x23 {
            return Ok(None);
        }
    }
    if contains_byte_exec(line, 0x2a) {
        return Ok(None);
    }
    let reserved: Vec<u8> = vec![0x72u8, 0x65u8, 0x73u8, 0x65u8, 0x72u8, 0x76u8, 0x65u8, 0x64u8];
    proof {
        assert(reserved@ =~= reserved_word());
    }
    if contains_seq_exec(line, reserved.as_slice()) {
        return Ok(None);
    }
    let fields: Vec<Vec<u8>> = split_on_exec(line, 0x7c);
    let ghost gfields = split_on(line@, 0x7c);
    proof {
        assert(forall|i: int|
            0 <= i < fields@.len() ==> (#[trigger] fields@[i])@ == fields.deep_view()[i]);
    }
    if fields.len() < 5 {
        return Ok(None);
    }
    if !bytes_eq(fields[1].as_slice(), country) {
        return Ok(None);
    }
    let tag4: Vec<u8> = vec![0x69u8, 0x70u8, 0x76u8, 0x34u8];
    let tag6: Vec<u8> = vec![0x69u8, 0x70u8, 0x76u8, 0x36u8];
    proof {
        assert(tag4@ =~= ipv4_tag());
        assert(tag6@ =~= ipv6_tag());
    }
    if bytes_eq(fields[2].as_slice(), tag4.as_slice()) {
        let start_opt = parse_ipv4_addr_exec(fields[3].as_slice());
        let count_opt = parse_dec_u64_exec(fields[4].as_slice());
        match (start_opt, count_opt) {
            (Some(start), Some(count)) => {
                let status: Vec<u8> = if fields.len() >= 7 {
                    slice_to_vec(fields[6].as_slice())
                } else {
                    Vec::new()
                };
                proof {
                    assert(status@ == status_of(gfields));
                }
                Ok(
                    Some(
                        AllocationRecord {
                            registry: slice_to_vec(fields[0].as_slice()),
                            country: slice_to_vec(fields[1].as_slice()),
                            range: IpRange::V4 { start, count },
                            status,
                        },
                    ),
                )
            },
            _ => Err(CoreError::Format),
        }
    } else if bytes_eq(fields[2].as_slice(), tag6.as_slice()) {
        match parse_ipv6_net(fields[3].as_slice(), fields[4].as_slice()) {
            Some(pair) => {
                let status: Vec<u8> = if fields.len() >= 7 {
                    slice_to_vec(fields[6].as_slice())
                } else {
                    Vec::new()
                };
                proof {
                    assert(status@ == status_of(gfields));
                }
                Ok(
                    Some(
                        AllocationRecord {
                            registry: slice_to_vec(fields[0].as_slice()),
                            country: slice_to_vec(fields[1].as_slice()),
                            range: IpRange::V6 { addr: pair.0, prefix: pair.1 },
                            status,
                        },
                    ),
                )
            },
            None => Err(CoreError::Format),
        }
    } else {
        Ok(None)
    }
}

/// The blocks one line contributes, per family: IPv4 records go through
/// the converter (a record whose range overflows is skipped, as is a line
/// that fails to parse), IPv6 records become their single canonical
/// block.
pub open spec fn line_blocks(line: Seq<u8>, country: Seq<u8>) -> (Seq<CidrBlock>, Seq<CidrBlock>) {
    match parse_line_spec(line, country) {
        Ok(Some(rec)) => match rec.range {
            IpRange::V4 { start, count } => match decompose_spec(start, count) {
                Ok(bs) => (bs, Seq::empty()),
                Err(_) => (Seq::empty(), Seq::empty()),
            },
            IpRange::V6 { addr, prefix } => (
                Seq::empty(),
                seq![CidrBlock::V6 { addr: canon_v6(addr, prefix), prefix }],
            ),
        },
        _ => (Seq::empty(), Seq::empty()),
    }
}

/// The blocks one line contributes, executable form.
fn line_to_blocks(line: &[u8], country: &[u8]) -> (r: (Vec<CidrBlock>, Vec<CidrBlock>))
    ensures
        r.0@ == line_blocks(line@, country@).0,
        r.1@ == line_blocks(line@, country@).1,
        forall|i: int| 0 <= i < r.0@.len() ==> (#[trigger] r.0@[i]) is V4 && r.0@[i].wf(),
        forall|i: int| 0 <= i < r.1@.len() ==> (#[trigger] r.1@[i]) is V6 && r.1@[i].wf(),
{
    match parse_record_line(line, country) {
        Ok(Some(rec)) => match rec.range {
            IpRange::V4 { start, count } => match decompose(start, count) {
                Ok(v) => (v, Vec::new()),
                Err(_) => (Vec::new(), Vec::new()),
            },
            IpRange::V6 { addr, prefix } => {
                let b = CidrBlock::new_v6(addr, prefix);
                let mut v6: Vec<CidrBlock> = Vec::new();
                v6.push(b);
                proof {
                    assert(v6@ =~= seq![CidrBlock::V6 { addr: canon_v6(addr, prefix), prefix }]);
                }
                (Vec::new(), v6)
            },
        },
        _ => (Vec::new(), Vec::new()),
    }
}

/// Drop one trailing carriage return, as a line terminated by `\r\n`
/// keeps its `\r` in the raw chunk.
pub open spec fn strip_cr(s: Seq<u8>) -> Seq<u8> {
    if s.len() > 0 && s.last() == 0x0d {
        s.drop_last()
    } else {
        s
    }
}

/// The lines of a text: chunks between newline bytes, each stripped of
/// one trailing carriage return; a final chunk without a newline is kept
/// as written, and a trailing newline adds no empty line.
pub open spec fn line_split(s: Seq<u8>) -> Seq<Seq<u8>>
    decreases s.len(),
    via line_split_dec
{
    if s.len() == 0 {
        Seq::empty()
    } else {
        match find_byte(s, 0x0a) {
            Some(i) => seq![strip_cr(s.take(i))] + line_split(s.skip(i + 1)),
            None => seq![s],
        }
    }
}

#[via_fn]
proof fn line_split_dec(s: Seq<u8>) {
    lemma_find_byte(s, 0x0a);
}

/// The per-family block lists a sequence of lines contributes, in line
/// order.
pub open spec fn lines_blocks(lines: Seq<Seq<u8>>, country: Seq<u8>) -> (
    Seq<CidrBlock>,
    Seq<CidrBlock>,
)
    decreases lines.len(),
{
    if lines.len() == 0 {
        (Seq::empty(), Seq::empty())
    } else {
        let head = line_blocks(lines[0], country);
        let rest = lines_blocks(lines.drop_first(), country);
        (head.0 + rest.0, head.1 + rest.1)
    }
}

/// What `parse_ip_lines` returns: the IPv4 and IPv6 blocks of every line
/// of the text that matches the country filter, in line order.
pub open spec fn parse_ip_lines_spec(text: Seq<u8>, country: Seq<u8>) -> (
    Seq<CidrBlock>,
    Seq<CidrBlock>,
) {
    lines_blocks(line_split(text), country)
}

proof fn lemma_lines_blocks_cons(l: Seq<u8>, rest: Seq<Seq<u8>>, country: Seq<u8>)
    ensures
        lines_blocks(seq![l] + rest, country).0 == line_blocks(l, country).0 + lines_blocks(
            rest,
            country,
        ).0,
        lines_blocks(seq![l] + rest, country).1 == line_blocks(l, country).1 + lines_blocks(
            rest,
            country,
        ).1,
{
    let s = seq![l] + rest;
    assert(s[0] == l);
    assert(s.drop_first() =~= rest);
}

/// Walk a whole source text line by line and collect the IPv4 and IPv6
/// blocks of every record that matches the country filter. Lines that are
/// skipped or fail to parse contribute nothing; they never abort the
/// walk.
pub fn parse_ip_lines(text: &[u8], country: &[u8]) -> (r: (Vec<CidrBlock>, Vec<CidrBlock>))
    ensures
        r.0@ == parse_ip_lines_spec(text@, country@).0,
        r.1@ == parse_ip_lines_spec(text@, country@).1,
        forall|i: int| 0 <= i < r.0@.len() ==> (#[trigger] r.0@[i]) is V4 && r.0@[i].wf(),
        forall|i: int| 0 <= i < r.1@.len() ==> (#[trigger] r.1@[i]) is V6 && r.1@[i].wf(),
{
    let mut v4: Vec<CidrBlock> = Vec::new();
    let mut v6: Vec<CidrBlock> = Vec::new();
    let n: usize = text.len();
    let mut cur: usize = 0;
    proof {
        assert(text@.skip(0) =~= text@);
    }
    while cur < n
        invariant
            cur <= n == text@.len(),
            parse_ip_lines_spec(text@, country@).0 == v4@ + lines_blocks(
                line_split(text@.skip(cur as int)),
                country@,
            ).0,
            parse_ip_lines_spec(text@, country@).1 == v6@ + lines_blocks(
                line_split(text@.skip(cur as int)),
                country@,
            ).1,
            forall|i: int| 0 <= i < v4@.len() ==> (#[trigger] v4@[i]) is V4 && v4@[i].wf(),
            forall|i: int| 0 <= i < v6@.len() ==> (#[trigger] v6@[i]) is V6 && v6@[i].wf(),
        decreases n - cur,
    {
        let rest: &[u8] = slice_subrange(text, cur, n);
        let ghost grest = text@.skip(cur as int);
        let ghost gv4 = v4@;
        let ghost gv6 = v6@;
        match find_byte_exec(rest, 0x0a) {
            Some(i) => {
                proof {
                    lemma_find_byte(grest, 0x0a);
                }
                let mut stop: usize = i;
                if i > 0 {
                    let last: u8 = rest[i - 1];
                    if last == 0x0d {
                        stop = i - 1;
                    }
                }
                let lslice: &[u8] = slice_subrange(rest, 0, stop);
                proof {
                    let gline = grest.take(i as int);
                    if i > 0 && grest[i as int - 1] == 0x0d {
                        assert(gline.last() == grest[i as int - 1]);
                        assert(lslice@ =~= gline.drop_last());
                    } else {
                        if gline.len() > 0 {
                            assert(gline.last() == grest[i as int - 1]);
                        }
                        assert(lslice@ =~= gline);
                    }
                    assert(lslice@ =~= strip_cr(gline));
                }
                let (mut b4, mut b6) = line_to_blocks(lslice, country);
                proof {
                    assert(line_split(grest) == seq![strip_cr(grest.take(i as int))] + line_split(
                        grest.skip(i as int + 1),
                    ));
                    lemma_lines_blocks_cons(
                        strip_cr(grest.take(i as int)),
                        line_split(grest.skip(i as int + 1)),
                        country@,
                    );
                    assert(grest.skip(i as int + 1) =~= text@.skip(cur as int + i as int + 1));
                }
                v4.append(&mut b4);
                v6.append(&mut b6);
                cur = cur + i + 1;
            },
            None => {
                let (mut b4, mut b6) = line_to_blocks(rest, country);
                proof {
                    assert(line_split(grest) == seq![grest]);
                    lemma_lines_blocks_cons(grest, Seq::<Seq<u8>>::empty(), country@);
                    assert(seq![grest] =~= seq![grest] + Seq::<Seq<u8>>::empty());
                    assert(lines_blocks(Seq::<Seq<u8>>::empty(), country@).0
                        == Seq::<CidrBlock>::empty());
                    assert(line_blocks(grest, country@).0 + Seq::<CidrBlock>::empty()
                        =~= line_blocks(grest, country@).0);
                }
                v4.append(&mut b4);
                v6.append(&mut b6);
                cur = n;
                proof {
                    assert(text@.skip(n as int) =~= Seq::<u8>::empty());
                    assert(line_split(Seq::<u8>::empty()) == Seq::<Seq<u8>>::empty());
                    assert(v4@ + Seq::<CidrBlock>::empty() =~= v4@);
                    assert(v6@ + Seq::<CidrBlock>::empty() =~= v6@);
                }
            },
        }
    }
    proof {
        assert(text@.skip(cur as int) =~= Seq::<u8>::empty());
        assert(line_split(Seq::<u8>::empty()) == Seq::<Seq<u8>>::empty());
        assert(v4@ + Seq::<CidrBlock>::empty() =~= v4@);
        assert(v6@ + Seq::<CidrBlock>::empty() =~= v6@);
    }
    (v4, v6)
}

} // verus!
