use vstd::prelude::*;
use vstd::utf8::encode_utf8;

use crate::buffer::{
    be16, be32, holds_at, labels_nonempty, lemma_holds_split, lemma_labels_round_trip,
    lemma_name_wire_fits, lemma_splice_concat, lemma_u16_at, lemma_u32_at, name_end, name_labels,
    name_split, name_text, name_wire, prepend_bytes, splice, u16_bytes, u32_bytes, PacketBuffer,
};
use crate::dns::{query_type_code, query_type_of, QueryType};
use crate::error::DnsError;

verus! {

/// A resource record: an owner name, a time to live in seconds, and a payload
/// that depends on the record's type. An IPv4 address is held as its 32 bits,
/// an IPv6 address as its 128 bits.
#[derive(Debug, PartialEq, Eq, PartialOrd, Ord, Clone)]
pub enum DnsRecord {
    Unknown { domain: String, qtype: u16, data_len: u16, ttl: u32 },
    A { domain: String, addr: u32, ttl: u32 },
    NS { domain: String, host: String, ttl: u32 },
    CNAME { domain: String, host: String, ttl: u32 },
    MX { domain: String, priority: u16, host: String, ttl: u32 },
    AAAA { domain: String, addr: u128, ttl: u32 },
}

/// A record with its names as text.
pub enum RecordView {
    Unknown { domain: Seq<char>, qtype: u16, data_len: u16, ttl: u32 },
    A { domain: Seq<char>, addr: u32, ttl: u32 },
    NS { domain: Seq<char>, host: Seq<char>, ttl: u32 },
    CNAME { domain: Seq<char>, host: Seq<char>, ttl: u32 },
    MX { domain: Seq<char>, priority: u16, host: Seq<char>, ttl: u32 },
    AAAA { domain: Seq<char>, addr: u128, ttl: u32 },
}

impl View for DnsRecord {
    type V = RecordView;

    open spec fn view(&self) -> RecordView {
        match self {
            DnsRecord::Unknown { domain, qtype, data_len, ttl } => RecordView::Unknown {
                domain: domain@,
                qtype: *qtype,
                data_len: *data_len,
                ttl: *ttl,
            },
            DnsRecord::A { domain, addr, ttl } => RecordView::A {
                domain: domain@,
                addr: *addr,
                ttl: *ttl,
            },
            DnsRecord::NS { domain, host, ttl } => RecordView::NS {
                domain: domain@,
                host: host@,
                ttl: *ttl,
            },
            DnsRecord::CNAME { domain, host, ttl } => RecordView::CNAME {
                domain: domain@,
                host: host@,
                ttl: *ttl,
            },
            DnsRecord::MX { domain, priority, host, ttl } => RecordView::MX {
                domain: domain@,
                priority: *priority,
                host: host@,
                ttl: *ttl,
            },
            DnsRecord::AAAA { domain, addr, ttl } => RecordView::AAAA {
                domain: domain@,
                addr: *addr,
                ttl: *ttl,
            },
        }
    }
}

/// A 128-bit value from four big-endian 32-bit words.
pub open spec fn be128(w0: u32, w1: u32, w2: u32, w3: u32) -> u128 {
    ((w0 as u128) << 96u128) | ((w1 as u128) << 64u128) | ((w2 as u128) << 32u128) | (w3 as u128)
}

/// The 32-bit word `i` (0 to 3, most significant first) of a 128-bit value.
pub open spec fn u128_word(v: u128, i: int) -> u32 {
    ((v >> ((96 - 32 * i) as u128)) & 0xffff_ffffu128) as u32
}

/// The big-endian 32-bit value at offset `p` of `b`.
pub open spec fn be32_at(b: Seq<u8>, p: int) -> u32 {
    be32(b[p], b[p + 1], b[p + 2], b[p + 3])
}

/// The record at offset `c` of the message `b` and where the next entry
/// starts; or why it cannot be read. The fixed part after the owner name is
/// type, class, time to live and payload length. The payload of a type
/// without a variant of its own is skipped.
pub open spec fn record_at(b: Seq<u8>, c: int) -> Result<(RecordView, int), DnsError> {
    match name_labels(b, c, 0) {
        Err(e) => Err(e),
        Ok(labels) => {
            let p = name_end(b, c);
            if p + 10 > 512 {
                Err(DnsError::OutOfBounds)
            } else {
                let domain = name_text(labels);
                let code = be16(b[p], b[p + 1]);
                let ttl = be32_at(b, p + 4);
                let len = be16(b[p + 8], b[p + 9]);
                let q = p + 10;
                match query_type_of(code) {
                    QueryType::A => if q + 4 > 512 {
                        Err(DnsError::OutOfBounds)
                    } else {
                        Ok((RecordView::A { domain, addr: be32_at(b, q), ttl }, q + 4))
                    },
                    QueryType::AAAA => if q + 16 > 512 {
                        Err(DnsError::OutOfBounds)
                    } else {
                        Ok(
                            (
                                RecordView::AAAA {
                                    domain,
                                    addr: be128(
                                        be32_at(b, q),
                                        be32_at(b, q + 4),
                                        be32_at(b, q + 8),
                                        be32_at(b, q + 12),
                                    ),
                                    ttl,
                                },
                                q + 16,
                            ),
                        )
                    },
                    QueryType::NS => match name_labels(b, q, 0) {
                        Err(e) => Err(e),
                        Ok(h) => Ok(
                            (RecordView::NS { domain, host: name_text(h), ttl }, name_end(b, q)),
                        ),
                    },
                    QueryType::CNAME => match name_labels(b, q, 0) {
                        Err(e) => Err(e),
                        Ok(h) => Ok(
                            (RecordView::CNAME { domain, host: name_text(h), ttl }, name_end(b, q)),
                        ),
                    },
                    QueryType::MX => if q + 2 > 512 {
                        Err(DnsError::OutOfBounds)
                    } else {
                        match name_labels(b, q + 2, 0) {
                            Err(e) => Err(e),
                            Ok(h) => Ok(
                                (
                                    RecordView::MX {
                                        domain,
                                        priority: be16(b[q], b[q + 1]),
                                        host: name_text(h),
                                        ttl,
                                    },
                                    name_end(b, q + 2),
                                ),
                            ),
                        }
                    },
                    QueryType::Unknown(_) => Ok(
                        (RecordView::Unknown { domain, qtype: code, data_len: len, ttl }, q + len),
                    ),
                }
            }
        },
    }
}

/// The bytes that start a record with the given owner name, type code and
/// time to live at offset `c`: name, type, class 1, time to live; or why they
/// cannot be written.
pub open spec fn head_wire(domain: Seq<char>, code: u16, ttl: u32, c: int) -> Result<
    Seq<u8>,
    DnsError,
> {
    match name_wire(name_split(encode_utf8(domain)), c) {
        Err(e) => Err(e),
        Ok(w) => if c + w.len() + 8 > 512 {
            Err(DnsError::OutOfBounds)
        } else {
            Ok(w + u16_bytes(code) + u16_bytes(1) + u32_bytes(ttl))
        },
    }
}

/// Bytes of a fixed length written at offset `p`, if they fit.
pub open spec fn fixed_wire(tail: Seq<u8>, p: int) -> Result<Seq<u8>, DnsError> {
    if p + tail.len() > 512 {
        Err(DnsError::OutOfBounds)
    } else {
        Ok(tail)
    }
}

/// A payload that ends with a name, written at offset `p`: its length, the
/// bytes `pre`, then the name.
pub open spec fn host_wire(pre: Seq<u8>, host: Seq<char>, p: int) -> Result<Seq<u8>, DnsError> {
    if p + 2 + pre.len() > 512 {
        Err(DnsError::OutOfBounds)
    } else {
        match name_wire(name_split(encode_utf8(host)), p + 2 + pre.len()) {
            Err(e) => Err(e),
            Ok(hw) => Ok(u16_bytes((pre.len() + hw.len()) as u16) + pre + hw),
        }
    }
}

/// The bytes of the 128-bit value `v`, most significant first.
pub open spec fn u128_bytes(v: u128) -> Seq<u8> {
    u32_bytes(u128_word(v, 0)) + u32_bytes(u128_word(v, 1)) + u32_bytes(u128_word(v, 2))
        + u32_bytes(u128_word(v, 3))
}

/// The length field and payload of a record, written at offset `p`.
pub open spec fn payload_wire(r: RecordView, p: int) -> Result<Seq<u8>, DnsError> {
    match r {
        RecordView::A { addr, .. } => fixed_wire(u16_bytes(4) + u32_bytes(addr), p),
        RecordView::AAAA { addr, .. } => fixed_wire(u16_bytes(16) + u128_bytes(addr), p),
        RecordView::NS { host, .. } => host_wire(Seq::empty(), host, p),
        RecordView::CNAME { host, .. } => host_wire(Seq::empty(), host, p),
        RecordView::MX { priority, host, .. } => host_wire(u16_bytes(priority), host, p),
        RecordView::Unknown { .. } => Ok(Seq::empty()),
    }
}

/// The owner name of a record.
pub open spec fn record_domain(r: RecordView) -> Seq<char> {
    match r {
        RecordView::Unknown { domain, .. } => domain,
        RecordView::A { domain, .. } => domain,
        RecordView::NS { domain, .. } => domain,
        RecordView::CNAME { domain, .. } => domain,
        RecordView::MX { domain, .. } => domain,
        RecordView::AAAA { domain, .. } => domain,
    }
}

/// The time to live of a record.
pub open spec fn record_ttl(r: RecordView) -> u32 {
    match r {
        RecordView::Unknown { ttl, .. } => ttl,
        RecordView::A { ttl, .. } => ttl,
        RecordView::NS { ttl, .. } => ttl,
        RecordView::CNAME { ttl, .. } => ttl,
        RecordView::MX { ttl, .. } => ttl,
        RecordView::AAAA { ttl, .. } => ttl,
    }
}

/// The wire type code of a record.
pub open spec fn record_code(r: RecordView) -> u16 {
    match r {
        RecordView::Unknown { qtype, .. } => qtype,
        RecordView::A { .. } => query_type_code(QueryType::A),
        RecordView::NS { .. } => query_type_code(QueryType::NS),
        RecordView::CNAME { .. } => query_type_code(QueryType::CNAME),
        RecordView::MX { .. } => query_type_code(QueryType::MX),
        RecordView::AAAA { .. } => query_type_code(QueryType::AAAA),
    }
}

/// The bytes that encode a record at offset `c`, or why it cannot be
/// written. A record of a type without a variant of its own is not written.
#[verifier::opaque]
pub open spec fn record_wire(r: RecordView, c: int) -> Result<Seq<u8>, DnsError> {
    if r is Unknown {
        Ok(Seq::empty())
    } else {
        match head_wire(record_domain(r), record_code(r), record_ttl(r), c) {
            Err(e) => Err(e),
            Ok(h) => prepend_bytes(h, payload_wire(r, c + h.len())),
        }
    }
}

/// How a name reads back after it was written: the text of its labels.
pub open spec fn name_read_back(name: Seq<char>) -> Seq<char> {
    name_text(name_split(encode_utf8(name)))
}

/// A name that reads back as it was written: none of its labels is empty.
pub open spec fn well_formed_name(name: Seq<char>) -> bool {
    labels_nonempty(name_split(encode_utf8(name)))
}

/// A record that is written at all, with names that read back.
pub open spec fn well_formed_record(r: RecordView) -> bool {
    match r {
        RecordView::Unknown { .. } => false,
        RecordView::A { domain, .. } => well_formed_name(domain),
        RecordView::AAAA { domain, .. } => well_formed_name(domain),
        RecordView::NS { domain, host, .. } => well_formed_name(domain) && well_formed_name(host),
        RecordView::CNAME { domain, host, .. } => well_formed_name(domain) && well_formed_name(
            host,
        ),
        RecordView::MX { domain, host, .. } => well_formed_name(domain) && well_formed_name(host),
    }
}

/// A record as it reads back after it was written: its names as the text of
/// their labels, everything else as it was.
pub open spec fn record_read_back(r: RecordView) -> RecordView {
    match r {
        RecordView::Unknown { .. } => r,
        RecordView::A { domain, addr, ttl } => RecordView::A {
            domain: name_read_back(domain),
            addr,
            ttl,
        },
        RecordView::AAAA { domain, addr, ttl } => RecordView::AAAA {
            domain: name_read_back(domain),
            addr,
            ttl,
        },
        RecordView::NS { domain, host, ttl } => RecordView::NS {
            domain: name_read_back(domain),
            host: name_read_back(host),
            ttl,
        },
        RecordView::CNAME { domain, host, ttl } => RecordView::CNAME {
            domain: name_read_back(domain),
            host: name_read_back(host),
            ttl,
        },
        RecordView::MX { domain, priority, host, ttl } => RecordView::MX {
            domain: name_read_back(domain),
            priority,
            host: name_read_back(host),
            ttl,
        },
    }
}

/// A name written at offset `p` of `b` reads back as its labels.
proof fn lemma_name_at(b: Seq<u8>, p: int, name: Seq<char>)
    requires
        b.len() == 512,
        well_formed_name(name),
        name_wire(name_split(encode_utf8(name)), p) is Ok,
        holds_at(b, p, name_wire(name_split(encode_utf8(name)), p)->Ok_0),
    ensures
        name_labels(b, p, 0) == Ok::<Seq<Seq<u8>>, DnsError>(name_split(encode_utf8(name))),
        name_end(b, p) == p + name_wire(name_split(encode_utf8(name)), p)->Ok_0.len(),
{
    lemma_labels_round_trip(b, p, name_split(encode_utf8(name)), 0);
}

/// The start of a record written at offset `c` reads back: its owner name,
/// type code and time to live, with the payload held just after them.
proof fn lemma_record_head(b: Seq<u8>, c: int, r: RecordView)
    requires
        b.len() == 512,
        0 <= c,
        well_formed_record(r),
        record_wire(r, c) is Ok,
        holds_at(b, c, record_wire(r, c)->Ok_0),
    ensures
        ({
            let w = record_wire(r, c)->Ok_0;
            let domain = record_domain(r);
            let h = head_wire(domain, record_code(r), record_ttl(r), c)->Ok_0;
            let p = name_end(b, c);
            &&& name_labels(b, c, 0) == Ok::<Seq<Seq<u8>>, DnsError>(
                name_split(encode_utf8(domain)),
            )
            &&& p + 8 == c + h.len()
            &&& be16(b[p], b[p + 1]) == record_code(r)
            &&& be32_at(b, p + 4) == record_ttl(r)
            &&& payload_wire(r, c + h.len()) is Ok
            &&& w == h + payload_wire(r, c + h.len())->Ok_0
            &&& holds_at(b, c + h.len(), payload_wire(r, c + h.len())->Ok_0)
        }),
{
    reveal(record_wire);
    let w = record_wire(r, c)->Ok_0;
    let domain = record_domain(r);
    let code = record_code(r);
    let ttl = record_ttl(r);
    let nw = name_wire(name_split(encode_utf8(domain)), c)->Ok_0;
    let h = head_wire(domain, code, ttl, c)->Ok_0;
    let pw = payload_wire(r, c + h.len())->Ok_0;
    lemma_name_wire_fits(name_split(encode_utf8(domain)), c);
    match r {
        RecordView::NS { host, .. } => lemma_name_wire_fits(
            name_split(encode_utf8(host)),
            c + h.len() + 2,
        ),
        RecordView::CNAME { host, .. } => lemma_name_wire_fits(
            name_split(encode_utf8(host)),
            c + h.len() + 2,
        ),
        RecordView::MX { host, .. } => lemma_name_wire_fits(
            name_split(encode_utf8(host)),
            c + h.len() + 4,
        ),
        _ => {},
    }
    assert(h == nw + (u16_bytes(code) + (u16_bytes(1) + u32_bytes(ttl)))) by {
        assert(h =~= nw + (u16_bytes(code) + (u16_bytes(1) + u32_bytes(ttl))));
    }
    lemma_holds_split(b, c, h, pw);
    lemma_holds_split(b, c, nw, u16_bytes(code) + (u16_bytes(1) + u32_bytes(ttl)));
    let p = c + nw.len();
    lemma_holds_split(b, p, u16_bytes(code), u16_bytes(1) + u32_bytes(ttl));
    lemma_holds_split(b, p + 2, u16_bytes(1), u32_bytes(ttl));
    lemma_name_at(b, c, domain);
    lemma_u16_at(b, p, code);
    lemma_u32_at(b, p + 4, ttl);
}

/// The round trip of a record of type A.
proof fn lemma_round_trip_a(b: Seq<u8>, c: int, r: RecordView)
    requires
        b.len() == 512,
        0 <= c,
        well_formed_record(r),
        record_wire(r, c) is Ok,
        holds_at(b, c, record_wire(r, c)->Ok_0),
        r is A,
    ensures
        record_at(b, c) == Ok::<(RecordView, int), DnsError>(
            (record_read_back(r), c + record_wire(r, c)->Ok_0.len()),
        ),
{
    lemma_record_head(b, c, r);
    let w = record_wire(r, c)->Ok_0;
    let h = head_wire(record_domain(r), record_code(r), record_ttl(r), c)->Ok_0;
    let q = c + h.len();
    let pw = payload_wire(r, q)->Ok_0;
    match r {
        RecordView::A { addr, .. } => {
            lemma_holds_split(b, q, u16_bytes(4), u32_bytes(addr));
            lemma_u32_at(b, q + 2, addr);
        },
        _ => {},
    }
}

/// The round trip of a record of type AAAA.
#[verifier::rlimit(80)]
proof fn lemma_round_trip_aaaa(b: Seq<u8>, c: int, r: RecordView)
    requires
        b.len() == 512,
        0 <= c,
        well_formed_record(r),
        record_wire(r, c) is Ok,
        holds_at(b, c, record_wire(r, c)->Ok_0),
        r is AAAA,
    ensures
        record_at(b, c) == Ok::<(RecordView, int), DnsError>(
            (record_read_back(r), c + record_wire(r, c)->Ok_0.len()),
        ),
{
    lemma_record_head(b, c, r);
    let w = record_wire(r, c)->Ok_0;
    let h = head_wire(record_domain(r), record_code(r), record_ttl(r), c)->Ok_0;
    let q = c + h.len();
    let pw = payload_wire(r, q)->Ok_0;
    match r {
        RecordView::AAAA { addr, .. } => {
            let w0 = u32_bytes(u128_word(addr, 0));
            let w1 = u32_bytes(u128_word(addr, 1));
            let w2 = u32_bytes(u128_word(addr, 2));
            let w3 = u32_bytes(u128_word(addr, 3));
            assert(u128_bytes(addr) == w0 + (w1 + (w2 + w3))) by {
                assert(u128_bytes(addr) =~= w0 + (w1 + (w2 + w3)));
            }
            lemma_holds_split(b, q, u16_bytes(16), u128_bytes(addr));
            lemma_holds_split(b, q + 2, w0, w1 + (w2 + w3));
            lemma_holds_split(b, q + 6, w1, w2 + w3);
            lemma_holds_split(b, q + 10, w2, w3);
            lemma_u32_at(b, q + 2, u128_word(addr, 0));
            lemma_u32_at(b, q + 6, u128_word(addr, 1));
            lemma_u32_at(b, q + 10, u128_word(addr, 2));
            lemma_u32_at(b, q + 14, u128_word(addr, 3));
            lemma_u128_words(addr);
        },
        _ => {},
    }
}

/// The round trip of a record of type NS.
proof fn lemma_round_trip_ns(b: Seq<u8>, c: int, r: RecordView)
    requires
        b.len() == 512,
        0 <= c,
        well_formed_record(r),
        record_wire(r, c) is Ok,
        holds_at(b, c, record_wire(r, c)->Ok_0),
        r is NS,
    ensures
        record_at(b, c) == Ok::<(RecordView, int), DnsError>(
            (record_read_back(r), c + record_wire(r, c)->Ok_0.len()),
        ),
{
    lemma_record_head(b, c, r);
    let w = record_wire(r, c)->Ok_0;
    let h = head_wire(record_domain(r), record_code(r), record_ttl(r), c)->Ok_0;
    let q = c + h.len();
    let pw = payload_wire(r, q)->Ok_0;
    match r {
        RecordView::NS { host, .. } => {
            let hw = name_wire(name_split(encode_utf8(host)), q + 2)->Ok_0;
            assert(pw == u16_bytes((hw.len()) as u16) + hw) by {
                assert(pw =~= u16_bytes((hw.len()) as u16) + hw);
            }
            lemma_holds_split(b, q, u16_bytes((hw.len()) as u16), hw);
            lemma_name_at(b, q + 2, host);
        },
        _ => {},
    }
}

/// The round trip of a record of type CNAME.
proof fn lemma_round_trip_cname(b: Seq<u8>, c: int, r: RecordView)
    requires
        b.len() == 512,
        0 <= c,
        well_formed_record(r),
        record_wire(r, c) is Ok,
        holds_at(b, c, record_wire(r, c)->Ok_0),
        r is CNAME,
    ensures
        record_at(b, c) == Ok::<(RecordView, int), DnsError>(
            (record_read_back(r), c + record_wire(r, c)->Ok_0.len()),
        ),
{
    lemma_record_head(b, c, r);
    let w = record_wire(r, c)->Ok_0;
    let h = head_wire(record_domain(r), record_code(r), record_ttl(r), c)->Ok_0;
    let q = c + h.len();
    let pw = payload_wire(r, q)->Ok_0;
    match r {
        RecordView::CNAME { host, .. } => {
            let hw = name_wire(name_split(encode_utf8(host)), q + 2)->Ok_0;
            assert(pw == u16_bytes((hw.len()) as u16) + hw) by {
                assert(pw =~= u16_bytes((hw.len()) as u16) + hw);
            }
            lemma_holds_split(b, q, u16_bytes((hw.len()) as u16), hw);
            lemma_name_at(b, q + 2, host);
        },
        _ => {},
    }
}

/// The round trip of a record of type MX.
#[verifier::rlimit(80)]
proof fn lemma_round_trip_mx(b: Seq<u8>, c: int, r: RecordView)
    requires
        b.len() == 512,
        0 <= c,
        well_formed_record(r),
        record_wire(r, c) is Ok,
        holds_at(b, c, record_wire(r, c)->Ok_0),
        r is MX,
    ensures
        record_at(b, c) == Ok::<(RecordView, int), DnsError>(
            (record_read_back(r), c + record_wire(r, c)->Ok_0.len()),
        ),
{
    lemma_record_head(b, c, r);
    let w = record_wire(r, c)->Ok_0;
    let h = head_wire(record_domain(r), record_code(r), record_ttl(r), c)->Ok_0;
    let q = c + h.len();
    let pw = payload_wire(r, q)->Ok_0;
    match r {
        RecordView::MX { priority, host, .. } => {
            let hw = name_wire(name_split(encode_utf8(host)), q + 4)->Ok_0;
            let lw = u16_bytes((2 + hw.len()) as u16);
            assert(pw == lw + (u16_bytes(priority) + hw)) by {
                assert(pw =~= lw + (u16_bytes(priority) + hw));
            }
            lemma_holds_split(b, q, lw, u16_bytes(priority) + hw);
            lemma_holds_split(b, q + 2, u16_bytes(priority), hw);
            lemma_u16_at(b, q + 2, priority);
            lemma_name_at(b, q + 4, host);
        },
        _ => {},
    }
}

/// A record written at offset `c` reads back from there as the same record,
/// its names as the text of their labels; reading resumes just past what was
/// written.
pub proof fn lemma_record_round_trip(s: Seq<u8>, c: int, r: RecordView)
    requires
        s.len() == 512,
        0 <= c,
        well_formed_record(r),
        record_wire(r, c) is Ok,
    ensures
        record_at(splice(s, c, record_wire(r, c)->Ok_0), c) == Ok::<(RecordView, int), DnsError>(
            (record_read_back(r), c + record_wire(r, c)->Ok_0.len()),
        ),
{
    reveal(record_wire);
    let w = record_wire(r, c)->Ok_0;
    let b = splice(s, c, w);
    lemma_record_wire_fits(r, c);
    assert(b.subrange(c, c + w.len()) =~= w);
    lemma_record_read(b, c, r);
}

/// The bytes of a record end within the buffer.
pub proof fn lemma_record_wire_fits(r: RecordView, c: int)
    requires
        0 <= c,
        !(r is Unknown),
        record_wire(r, c) is Ok,
    ensures
        c + record_wire(r, c)->Ok_0.len() <= 512,
{
    reveal(record_wire);
    {
        let domain = record_domain(r);
        let h = head_wire(domain, record_code(r), record_ttl(r), c)->Ok_0;
        lemma_name_wire_fits(name_split(encode_utf8(domain)), c);
        match r {
            RecordView::NS { host, .. } => lemma_name_wire_fits(
                name_split(encode_utf8(host)),
                c + h.len() + 2,
            ),
            RecordView::CNAME { host, .. } => lemma_name_wire_fits(
                name_split(encode_utf8(host)),
                c + h.len() + 2,
            ),
            RecordView::MX { host, .. } => lemma_name_wire_fits(
                name_split(encode_utf8(host)),
                c + h.len() + 4,
            ),
            _ => {},
        }
    }
}

/// A record whose bytes are held at offset `c` of `b` reads back from there
/// as the same record, its names as the text of their labels.
pub proof fn lemma_record_read(b: Seq<u8>, c: int, r: RecordView)
    requires
        b.len() == 512,
        0 <= c,
        well_formed_record(r),
        record_wire(r, c) is Ok,
        holds_at(b, c, record_wire(r, c)->Ok_0),
    ensures
        record_at(b, c) == Ok::<(RecordView, int), DnsError>(
            (record_read_back(r), c + record_wire(r, c)->Ok_0.len()),
        ),
{
    match r {
        RecordView::A { .. } => lemma_round_trip_a(b, c, r),
        RecordView::AAAA { .. } => lemma_round_trip_aaaa(b, c, r),
        RecordView::NS { .. } => lemma_round_trip_ns(b, c, r),
        RecordView::CNAME { .. } => lemma_round_trip_cname(b, c, r),
        RecordView::MX { .. } => lemma_round_trip_mx(b, c, r),
        RecordView::Unknown { .. } => {},
    }
}

/// Overwriting the first two bytes of the part `mid` of a spliced range.
pub proof fn lemma_splice_patch(s: Seq<u8>, c: int, w1: Seq<u8>, mid: Seq<u8>, w2: Seq<u8>, v: Seq<u8>)
    requires
        0 <= c,
        mid.len() == 2,
        v.len() == 2,
        c + w1.len() + 2 + w2.len() <= s.len(),
    ensures
        splice(splice(s, c, w1 + mid + w2), c + w1.len(), v) == splice(s, c, w1 + v + w2),
{
    assert(splice(splice(s, c, w1 + mid + w2), c + w1.len(), v) =~= splice(s, c, w1 + v + w2));
}

/// The 128-bit value rebuilt from its four words is the value itself.
pub proof fn lemma_u128_words(v: u128)
    ensures
        be128(u128_word(v, 0), u128_word(v, 1), u128_word(v, 2), u128_word(v, 3)) == v,
{
    let w0 = ((v >> 96u128) & 0xffff_ffffu128) as u32;
    let w1 = ((v >> 64u128) & 0xffff_ffffu128) as u32;
    let w2 = ((v >> 32u128) & 0xffff_ffffu128) as u32;
    let w3 = ((v >> 0u128) & 0xffff_ffffu128) as u32;
    assert(((w0 as u128) << 96u128) | ((w1 as u128) << 64u128) | ((w2 as u128) << 32u128) | (
    w3 as u128) == v) by (bit_vector)
        requires
            w0 == ((v >> 96u128) & 0xffff_ffffu128) as u32,
            w1 == ((v >> 64u128) & 0xffff_ffffu128) as u32,
            w2 == ((v >> 32u128) & 0xffff_ffffu128) as u32,
            w3 == ((v >> 0u128) & 0xffff_ffffu128) as u32,
    ;
}

/// Writes the start of a record: owner name, type, class 1, time to live.
fn write_head(buffer: &mut PacketBuffer, domain: &String, code: u16, ttl: u32) -> (r: Result<
    (),
    DnsError,
>)
    ensures
        match head_wire(domain@, code, ttl, old(buffer).cursor() as int) {
            Ok(w) => r is Ok && final(buffer).bytes() == splice(
                old(buffer).bytes(),
                old(buffer).cursor() as int,
                w,
            ) && final(buffer).cursor() == old(buffer).cursor() + w.len(),
            Err(e) => r == Err::<(), DnsError>(e),
        },
{
    broadcast use PacketBuffer::lemma_bytes_len;
    let ghost b = buffer.bytes();
    let ghost c = buffer.cursor() as int;
    buffer.write_qname(domain.as_str())?;
    let ghost w = name_wire(name_split(encode_utf8(domain@)), c)->Ok_0;
    buffer.write_u16(code)?;
    proof {
        lemma_splice_concat(b, c, w, u16_bytes(code));
    }
    buffer.write_u16(1)?;
    proof {
        lemma_splice_concat(b, c, w + u16_bytes(code), u16_bytes(1));
    }
    buffer.write_u32(ttl)?;
    proof {
        lemma_splice_concat(b, c, w + u16_bytes(code) + u16_bytes(1), u32_bytes(ttl));
    }
    Ok(())
}

/// Writes a payload that ends with a name: a length field, the optional
/// 16-bit `priority`, then `host`; the length field is filled in last.
fn write_host_payload(buffer: &mut PacketBuffer, priority: Option<u16>, host: &String) -> (r:
    Result<(), DnsError>)
    ensures
        ({
            let pre = match priority {
                Some(p) => u16_bytes(p),
                None => Seq::empty(),
            };
            match host_wire(pre, host@, old(buffer).cursor() as int) {
                Ok(w) => r is Ok && final(buffer).bytes() == splice(
                    old(buffer).bytes(),
                    old(buffer).cursor() as int,
                    w,
                ) && final(buffer).cursor() == old(buffer).cursor() + w.len() 
                    && final(buffer).cursor() <= 512,
                Err(e) => r == Err::<(), DnsError>(e),
            }
        }),
{
    broadcast use PacketBuffer::lemma_bytes_len;
    let ghost b = buffer.bytes();
    let ghost c = buffer.cursor() as int;
    let ghost pre = match priority {
        Some(p) => u16_bytes(p),
        None => Seq::<u8>::empty(),
    };
    let pos = buffer.pos();
    buffer.write_u16(0)?;
    let ghost mut w = u16_bytes(0);
    match priority {
        Some(p) => {
            buffer.write_u16(p)?;
            proof {
                lemma_splice_concat(b, c, w, u16_bytes(p));
                w = w + u16_bytes(p);
            }
        },
        None => {
            assert(w + pre =~= w);
        },
    }
    buffer.write_qname(host.as_str())?;
    let ghost hw = name_wire(name_split(encode_utf8(host@)), c + 2 + pre.len())->Ok_0;
    proof {
        lemma_splice_concat(b, c, w, hw);
        assert(w + hw =~= Seq::<u8>::empty() + u16_bytes(0) + (pre + hw));
    }
    let size = buffer.pos() - (pos + 2);
    buffer.set_u16(pos, size as u16)?;
    proof {
        lemma_splice_patch(b, c, Seq::empty(), u16_bytes(0), pre + hw, u16_bytes(size as u16));
        assert(Seq::<u8>::empty() + u16_bytes(size as u16) + (pre + hw) =~= u16_bytes(
            (pre.len() + hw.len()) as u16,
        ) + pre + hw);
    }
    Ok(())
}

/// Writes the length field and payload of an IPv4 address record.
fn write_a_payload(buffer: &mut PacketBuffer, addr: u32) -> (r: Result<(), DnsError>)
    ensures
        match fixed_wire(u16_bytes(4) + u32_bytes(addr), old(buffer).cursor() as int) {
            Ok(w) => r is Ok && final(buffer).bytes() == splice(
                old(buffer).bytes(),
                old(buffer).cursor() as int,
                w,
            ) && final(buffer).cursor() == old(buffer).cursor() + w.len(),
            Err(e) => r == Err::<(), DnsError>(e),
        },
{
    broadcast use PacketBuffer::lemma_bytes_len;
    let ghost b = buffer.bytes();
    let ghost c = buffer.cursor() as int;
    buffer.write_u16(4)?;
    buffer.write_u32(addr)?;
    proof {
        lemma_splice_concat(b, c, u16_bytes(4), u32_bytes(addr));
    }
    Ok(())
}

/// Writes the length field and payload of an IPv6 address record.
fn write_aaaa_payload(buffer: &mut PacketBuffer, addr: u128) -> (r: Result<(), DnsError>)
    ensures
        match fixed_wire(u16_bytes(16) + u128_bytes(addr), old(buffer).cursor() as int) {
            Ok(w) => r is Ok && final(buffer).bytes() == splice(
                old(buffer).bytes(),
                old(buffer).cursor() as int,
                w,
            ) && final(buffer).cursor() == old(buffer).cursor() + w.len(),
            Err(e) => r == Err::<(), DnsError>(e),
        },
{
    broadcast use PacketBuffer::lemma_bytes_len;
    let ghost b = buffer.bytes();
    let ghost c = buffer.cursor() as int;
    let ghost mut w = u16_bytes(16);
    buffer.write_u16(16)?;
    let w0 = ((addr >> 96) & 0xffff_ffff) as u32;
    let w1 = ((addr >> 64) & 0xffff_ffff) as u32;
    let w2 = ((addr >> 32) & 0xffff_ffff) as u32;
    let w3 = (addr & 0xffff_ffff) as u32;
    assert(w3 == u128_word(addr, 3)) by {
        assert((addr >> 0u128) == addr) by (bit_vector);
    }
    buffer.write_u32(w0)?;
    proof {
        lemma_splice_concat(b, c, w, u32_bytes(w0));
        w = w + u32_bytes(w0);
    }
    buffer.write_u32(w1)?;
    proof {
        lemma_splice_concat(b, c, w, u32_bytes(w1));
        w = w + u32_bytes(w1);
    }
    buffer.write_u32(w2)?;
    proof {
        lemma_splice_concat(b, c, w, u32_bytes(w2));
        w = w + u32_bytes(w2);
    }
    buffer.write_u32(w3)?;
    proof {
        lemma_splice_concat(b, c, w, u32_bytes(w3));
        w = w + u32_bytes(w3);
        assert(w =~= u16_bytes(16) + u128_bytes(addr));
    }
    Ok(())
}

impl DnsRecord {
    /// Reads a record at the cursor.
    pub fn read(buffer: &mut PacketBuffer) -> (r: Result<Self, DnsError>)
        ensures
            final(buffer).bytes() == old(buffer).bytes(),
            match record_at(old(buffer).bytes(), old(buffer).cursor() as int) {
                Ok((v, end)) => r is Ok && r->Ok_0@ == v && final(buffer).cursor() == end,
                Err(e) => r == Err::<DnsRecord, DnsError>(e),
            },
    {
        let ghost b = buffer.bytes();
        let mut domain = String::new();
        buffer.read_qname(&mut domain)?;
        assert(domain@ =~= name_text(name_labels(b, old(buffer).cursor() as int, 0)->Ok_0));
        let qtype_num = buffer.read_u16()?;
        let qtype = QueryType::from(qtype_num);
        buffer.read_u16()?;
        let ttl = buffer.read_u32()?;
        let data_len = buffer.read_u16()?;
        match qtype {
            QueryType::A => {
                let addr = buffer.read_u32()?;
                Ok(DnsRecord::A { domain, addr, ttl })
            },
            QueryType::AAAA => {
                let w0 = buffer.read_u32()?;
                let w1 = buffer.read_u32()?;
                let w2 = buffer.read_u32()?;
                let w3 = buffer.read_u32()?;
                let addr = ((w0 as u128) << 96) | ((w1 as u128) << 64) | ((w2 as u128) << 32) | (
                w3 as u128);
                Ok(DnsRecord::AAAA { domain, addr, ttl })
            },
            QueryType::NS => {
                let mut ns = String::new();
                buffer.read_qname(&mut ns)?;
                Ok(DnsRecord::NS { domain, host: ns, ttl })
            },
            QueryType::CNAME => {
                let mut cname = String::new();
                buffer.read_qname(&mut cname)?;
                Ok(DnsRecord::CNAME { domain, host: cname, ttl })
            },
            QueryType::MX => {
                let priority = buffer.read_u16()?;
                let mut mx = String::new();
                buffer.read_qname(&mut mx)?;
                Ok(DnsRecord::MX { domain, priority, host: mx, ttl })
            },
            QueryType::Unknown(_) => {
                buffer.step(data_len as usize)?;
                Ok(DnsRecord::Unknown { domain, qtype: qtype_num, data_len, ttl })
            },
        }
    }

    /// The owner name.
    fn domain(&self) -> (r: &String)
        ensures
            r@ == record_domain(self@),
    {
        match self {
            Self::Unknown { domain, .. } => domain,
            Self::A { domain, .. } => domain,
            Self::NS { domain, .. } => domain,
            Self::CNAME { domain, .. } => domain,
            Self::MX { domain, .. } => domain,
            Self::AAAA { domain, .. } => domain,
        }
    }

    /// The time to live.
    fn ttl(&self) -> (r: u32)
        ensures
            r == record_ttl(self@),
    {
        match self {
            Self::Unknown { ttl, .. } => *ttl,
            Self::A { ttl, .. } => *ttl,
            Self::NS { ttl, .. } => *ttl,
            Self::CNAME { ttl, .. } => *ttl,
            Self::MX { ttl, .. } => *ttl,
            Self::AAAA { ttl, .. } => *ttl,
        }
    }

    /// The wire type code.
    fn type_code(&self) -> (r: u16)
        ensures
            r == record_code(self@),
    {
        match self {
            Self::Unknown { qtype, .. } => *qtype,
            Self::A { .. } => u16::from(QueryType::A),
            Self::NS { .. } => u16::from(QueryType::NS),
            Self::CNAME { .. } => u16::from(QueryType::CNAME),
            Self::MX { .. } => u16::from(QueryType::MX),
            Self::AAAA { .. } => u16::from(QueryType::AAAA),
        }
    }

    /// Writes the length field and payload of this record at the cursor.
    fn write_payload(&self, buffer: &mut PacketBuffer) -> (r: Result<(), DnsError>)
        ensures
            match payload_wire(self@, old(buffer).cursor() as int) {
                Ok(w) => r is Ok && final(buffer).bytes() == splice(
                    old(buffer).bytes(),
                    old(buffer).cursor() as int,
                    w,
                ) && final(buffer).cursor() == old(buffer).cursor() + w.len() && (self@ is Unknown
                    || final(buffer).cursor() <= 512),
                Err(e) => r == Err::<(), DnsError>(e),
            },
    {
        broadcast use PacketBuffer::lemma_bytes_len;
        match self {
            Self::A { addr, .. } => write_a_payload(buffer, *addr),
            Self::AAAA { addr, .. } => write_aaaa_payload(buffer, *addr),
            Self::NS { host, .. } => write_host_payload(buffer, None, host),
            Self::CNAME { host, .. } => write_host_payload(buffer, None, host),
            Self::MX { priority, host, .. } => write_host_payload(buffer, Some(*priority), host),
            Self::Unknown { .. } => {
                assert(splice(buffer.bytes(), buffer.cursor() as int, Seq::empty()) =~= buffer.bytes());
                Ok(())
            },
        }
    }

    /// Writes this record at the cursor and returns how many bytes it took.
    /// A record of a type without a variant of its own is not written.
    pub fn write(&self, buffer: &mut PacketBuffer) -> (r: Result<usize, DnsError>)
        ensures
            match record_wire(self@, old(buffer).cursor() as int) {
                Ok(w) => r == Ok::<usize, DnsError>(w.len() as usize) && final(buffer).bytes()
                    == splice(old(buffer).bytes(), old(buffer).cursor() as int, w)
                    && final(buffer).cursor() == old(buffer).cursor() + w.len(),
                Err(e) => r == Err::<usize, DnsError>(e),
            },
    {
        broadcast use PacketBuffer::lemma_bytes_len;
        reveal(record_wire);
        let ghost b = buffer.bytes();
        let ghost c = buffer.cursor() as int;
        if let Self::Unknown { .. } = self {
            assert(splice(b, c, Seq::empty()) =~= b);
            return Ok(0);
        }
        let start_pos = buffer.pos();
        write_head(buffer, self.domain(), self.type_code(), self.ttl())?;
        let ghost hw = head_wire(record_domain(self@), record_code(self@), record_ttl(self@), c)->Ok_0;
        self.write_payload(buffer)?;
        proof {
            let pw = payload_wire(self@, c + hw.len())->Ok_0;
            lemma_splice_concat(b, c, hw, pw);
        }
        Ok(buffer.pos() - start_pos)
    }
}

} // verus!
