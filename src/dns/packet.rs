use vstd::prelude::*;
use vstd::utf8::encode_utf8;

use crate::buffer::{
    be16, holds_at, lemma_holds_split, lemma_splice_concat, name_split, name_text, prepend_bytes,
    splice, PacketBuffer,
};
use crate::dns::header::{default_header, header_from, header_wire, lemma_header_round_trip, DnsHeader};
use crate::dns::question::{lemma_question_read, question_at, question_wire, DnsQuestion};
use crate::dns::record::{
    lemma_record_read, lemma_record_wire_fits, record_at, record_read_back, record_wire,
    well_formed_name, well_formed_record, DnsRecord, RecordView,
};
use crate::dns::{query_type_code, query_type_of, QueryType};
use crate::error::DnsError;

verus! {

/// A whole message: header, questions, and the answer, authority and
/// additional records.
#[derive(Debug, Clone)]
pub struct DnsPacket {
    pub header: DnsHeader,
    pub questions: Vec<DnsQuestion>,
    pub answers: Vec<DnsRecord>,
    pub authorities: Vec<DnsRecord>,
    pub resources: Vec<DnsRecord>,
}

/// `n` questions read one after another from offset `c`: the labels of each
/// name with its type code, and where the next entry starts.
pub open spec fn questions_at(b: Seq<u8>, c: int, n: nat) -> Result<
    (Seq<(Seq<Seq<u8>>, u16)>, int),
    DnsError,
>
    decreases n,
{
    if n == 0 {
        Ok((Seq::empty(), c))
    } else {
        match question_at(b, c) {
            Err(e) => Err(e),
            Ok((labels, code, p)) => match questions_at(b, p, (n - 1) as nat) {
                Err(e) => Err(e),
                Ok((qs, end)) => Ok((seq![(labels, code)] + qs, end)),
            },
        }
    }
}

/// `n` records read one after another from offset `c`, and where the next
/// entry starts.
pub open spec fn records_at(b: Seq<u8>, c: int, n: nat) -> Result<(Seq<RecordView>, int), DnsError>
    decreases n,
{
    if n == 0 {
        Ok((Seq::empty(), c))
    } else {
        match record_at(b, c) {
            Err(e) => Err(e),
            Ok((r, p)) => match records_at(b, p, (n - 1) as nat) {
                Err(e) => Err(e),
                Ok((rs, end)) => Ok((seq![r] + rs, end)),
            },
        }
    }
}

/// The bytes that encode the questions `qs` one after another from offset `c`.
pub open spec fn questions_wire(qs: Seq<DnsQuestion>, c: int) -> Result<Seq<u8>, DnsError>
    decreases qs.len(),
{
    if qs.len() == 0 {
        Ok(Seq::empty())
    } else {
        match question_wire(qs[0].name@, qs[0].qtype, c) {
            Err(e) => Err(e),
            Ok(w) => prepend_bytes(w, questions_wire(qs.drop_first(), c + w.len())),
        }
    }
}

/// The bytes that encode the records `rs` one after another from offset `c`.
pub open spec fn records_wire(rs: Seq<DnsRecord>, c: int) -> Result<Seq<u8>, DnsError>
    decreases rs.len(),
{
    if rs.len() == 0 {
        Ok(Seq::empty())
    } else {
        match record_wire(rs[0]@, c) {
            Err(e) => Err(e),
            Ok(w) => prepend_bytes(w, records_wire(rs.drop_first(), c + w.len())),
        }
    }
}

/// The questions `qs` read back as `parsed`.
pub open spec fn questions_match(qs: Seq<DnsQuestion>, parsed: Seq<(Seq<Seq<u8>>, u16)>) -> bool {
    &&& qs.len() == parsed.len()
    &&& forall|i: int|
        0 <= i < qs.len() ==> #[trigger] qs[i].name@ == name_text(parsed[i].0) && qs[i].qtype
            == query_type_of(parsed[i].1)
}

/// The records `rs` read back as `parsed`.
pub open spec fn records_match(rs: Seq<DnsRecord>, parsed: Seq<RecordView>) -> bool {
    &&& rs.len() == parsed.len()
    &&& forall|i: int| 0 <= i < rs.len() ==> #[trigger] rs[i]@ == parsed[i]
}

/// `acc` followed by the questions of `res`, or the error of `res`.
pub open spec fn prepend_questions(
    acc: Seq<(Seq<Seq<u8>>, u16)>,
    res: Result<(Seq<(Seq<Seq<u8>>, u16)>, int), DnsError>,
) -> Result<(Seq<(Seq<Seq<u8>>, u16)>, int), DnsError> {
    match res {
        Ok((qs, end)) => Ok((acc + qs, end)),
        Err(e) => Err(e),
    }
}

/// `acc` followed by the records of `res`, or the error of `res`.
pub open spec fn prepend_records(
    acc: Seq<RecordView>,
    res: Result<(Seq<RecordView>, int), DnsError>,
) -> Result<(Seq<RecordView>, int), DnsError> {
    match res {
        Ok((rs, end)) => Ok((acc + rs, end)),
        Err(e) => Err(e),
    }
}

/// The sections of a message as read: questions, answers, authority records,
/// additional records, and where the message ends.
pub type PacketSections = (
    Seq<(Seq<Seq<u8>>, u16)>,
    Seq<RecordView>,
    Seq<RecordView>,
    Seq<RecordView>,
    int,
);

/// The message at offset `c` of `b`, read as its header says: the questions,
/// the answers, the authority records and the additional records, and where
/// the message ends; or why it cannot be read.
#[verifier::opaque]
pub open spec fn packet_at(b: Seq<u8>, c: int) -> Result<PacketSections, DnsError> {
    if c + 12 > 512 {
        Err(DnsError::OutOfBounds)
    } else {
        let nq = be16(b[c + 4], b[c + 5]) as nat;
        let na = be16(b[c + 6], b[c + 7]) as nat;
        let nu = be16(b[c + 8], b[c + 9]) as nat;
        let nr = be16(b[c + 10], b[c + 11]) as nat;
        match questions_at(b, c + 12, nq) {
            Err(e) => Err(e),
            Ok((qs, qpos)) => match records_at(b, qpos, na) {
                Err(e) => Err(e),
                Ok((ans, upos)) => match records_at(b, upos, nu) {
                    Err(e) => Err(e),
                    Ok((auth, rpos)) => match records_at(b, rpos, nr) {
                        Err(e) => Err(e),
                        Ok((res, end)) => Ok((qs, ans, auth, res, end)),
                    },
                },
            },
        }
    }
}

impl Default for DnsPacket {
    fn default() -> (r: Self)
        ensures
            r.header == default_header(),
            r.questions@.len() == 0,
            r.answers@.len() == 0,
            r.authorities@.len() == 0,
            r.resources@.len() == 0,
    {
        DnsPacket {
            header: DnsHeader::default(),
            questions: Vec::new(),
            answers: Vec::new(),
            authorities: Vec::new(),
            resources: Vec::new(),
        }
    }
}

/// Reads `count` records at the cursor onto the end of `out`.
fn read_records(buffer: &mut PacketBuffer, count: u16, out: &mut Vec<DnsRecord>) -> (r: Result<
    (),
    DnsError,
>)
    ensures
        final(buffer).bytes() == old(buffer).bytes(),
        match records_at(old(buffer).bytes(), old(buffer).cursor() as int, count as nat) {
            Ok((rs, end)) => r is Ok && final(out)@.len() == old(out)@.len() + rs.len()
                && final(out)@.subrange(0, old(out)@.len() as int) == old(out)@
                && records_match(final(out)@.subrange(old(out)@.len() as int, final(out)@.len() as int), rs)
                && final(buffer).cursor() == end,
            Err(e) => r == Err::<(), DnsError>(e),
        },
{
    let ghost b = buffer.bytes();
    let ghost c = buffer.cursor() as int;
    let ghost n0 = out@.len() as int;
    let ghost mut acc: Seq<RecordView> = Seq::empty();
    let mut i: u16 = 0;
    proof {
        let all = records_at(b, c, count as nat);
        if all is Ok {
            assert(acc + all->Ok_0.0 =~= all->Ok_0.0);
        }
        assert(out@.subrange(0, n0) =~= old(out)@);
    }
    while i < count
        invariant
            i <= count,
            buffer.bytes() == b,
            b == old(buffer).bytes(),
            c == old(buffer).cursor(),
            n0 == old(out)@.len(),
            out@.len() == n0 + acc.len(),
            out@.subrange(0, n0) == old(out)@,
            records_match(out@.subrange(n0, out@.len() as int), acc),
            records_at(b, c, count as nat) == prepend_records(
                acc,
                records_at(b, buffer.cursor() as int, (count - i) as nat),
            ),
        decreases count - i,
    {
        let ghost p = buffer.cursor() as int;
        let rec = DnsRecord::read(buffer)?;
        proof {
            let next = records_at(b, buffer.cursor() as int, (count - i - 1) as nat);
            let v = rec@;
            if next is Ok {
                assert(acc + (seq![v] + next->Ok_0.0) =~= acc.push(v) + next->Ok_0.0);
            }
        }
        let ghost old_out = out@;
        out.push(rec);
        proof {
            assert(out@.subrange(0, n0) =~= old_out.subrange(0, n0));
            assert(out@.subrange(n0, out@.len() as int) =~= old_out.subrange(n0, old_out.len() as int).push(rec));
            acc = acc.push(rec@);
        }
        i = i + 1;
    }
    Ok(())
}

/// `h` with its four section counts replaced.
pub open spec fn with_counts(h: DnsHeader, q: u16, a: u16, au: u16, r: u16) -> DnsHeader {
    DnsHeader { questions: q, answers: a, authorative_entries: au, resource_entries: r, ..h }
}

/// The bytes that encode the message `p` at offset `c`: header, questions,
/// answers, authorities, additional records; or why it cannot be written.
#[verifier::opaque]
pub open spec fn packet_wire(p: DnsPacket, c: int) -> Result<Seq<u8>, DnsError> {
    if c + 12 > 512 {
        Err(DnsError::OutOfBounds)
    } else {
        let qpos = c + 12;
        prepend_bytes(
            header_wire(p.header),
            match questions_wire(p.questions@, qpos) {
                Err(e) => Err(e),
                Ok(qw) => prepend_bytes(
                    qw,
                    match records_wire(p.answers@, qpos + qw.len()) {
                        Err(e) => Err(e),
                        Ok(aw) => prepend_bytes(
                            aw,
                            match records_wire(p.authorities@, qpos + qw.len() + aw.len()) {
                                Err(e) => Err(e),
                                Ok(uw) => prepend_bytes(
                                    uw,
                                    records_wire(p.resources@, qpos + qw.len() + aw.len() + uw.len()),
                                ),
                            },
                        ),
                    },
                ),
            },
        )
    }
}

/// Writes the questions one after another at the cursor.
fn write_questions(qs: &Vec<DnsQuestion>, buffer: &mut PacketBuffer) -> (r: Result<(), DnsError>)
    ensures
        match questions_wire(qs@, old(buffer).cursor() as int) {
            Ok(w) => r is Ok && final(buffer).bytes() == splice(
                old(buffer).bytes(),
                old(buffer).cursor() as int,
                w,
            ) && final(buffer).cursor() == old(buffer).cursor() + w.len(),
            Err(e) => r == Err::<(), DnsError>(e),
        },
{
    broadcast use PacketBuffer::lemma_bytes_len;
    let ghost b = buffer.bytes();
    let ghost c = buffer.cursor() as int;
    let ghost mut written: Seq<u8> = Seq::empty();
    let mut i: usize = 0;
    proof {
        let all = questions_wire(qs@, c);
        if all is Ok {
            assert(written + all->Ok_0 =~= all->Ok_0);
        }
        assert(qs@.subrange(0, qs@.len() as int) =~= qs@);
        assert(splice(b, c, written) =~= b);
    }
    while i < qs.len()
        invariant
            i <= qs@.len(),
            b == old(buffer).bytes(),
            c == old(buffer).cursor(),
            buffer.cursor() == c + written.len(),
            buffer.bytes() == splice(b, c, written),
            questions_wire(qs@, c) == prepend_bytes(
                written,
                questions_wire(qs@.subrange(i as int, qs@.len() as int), buffer.cursor() as int),
            ),
        decreases qs@.len() - i,
    {
        let ghost rest = qs@.subrange(i as int, qs@.len() as int);
        proof {
            assert(rest[0] == qs@[i as int]);
            assert(rest.drop_first() =~= qs@.subrange(i + 1, qs@.len() as int));
        }
        qs[i].write(buffer)?;
        proof {
            let w = question_wire(qs@[i as int].name@, qs@[i as int].qtype, c + written.len())->Ok_0;
            lemma_splice_concat(b, c, written, w);
            let tail = questions_wire(qs@.subrange(i + 1, qs@.len() as int), c + written.len() + w.len());
            if tail is Ok {
                assert(written + (w + tail->Ok_0) =~= (written + w) + tail->Ok_0);
            }
            written = written + w;
        }
        i = i + 1;
    }
    proof {
        assert(written + Seq::<u8>::empty() =~= written);
    }
    Ok(())
}

/// Writes the records one after another at the cursor.
fn write_records(rs: &Vec<DnsRecord>, buffer: &mut PacketBuffer) -> (r: Result<(), DnsError>)
    ensures
        match records_wire(rs@, old(buffer).cursor() as int) {
            Ok(w) => r is Ok && final(buffer).bytes() == splice(
                old(buffer).bytes(),
                old(buffer).cursor() as int,
                w,
            ) && final(buffer).cursor() == old(buffer).cursor() + w.len(),
            Err(e) => r == Err::<(), DnsError>(e),
        },
{
    broadcast use PacketBuffer::lemma_bytes_len;
    let ghost b = buffer.bytes();
    let ghost c = buffer.cursor() as int;
    let ghost mut written: Seq<u8> = Seq::empty();
    let mut i: usize = 0;
    proof {
        let all = records_wire(rs@, c);
        if all is Ok {
            assert(written + all->Ok_0 =~= all->Ok_0);
        }
        assert(rs@.subrange(0, rs@.len() as int) =~= rs@);
        assert(splice(b, c, written) =~= b);
    }
    while i < rs.len()
        invariant
            i <= rs@.len(),
            b == old(buffer).bytes(),
            c == old(buffer).cursor(),
            buffer.cursor() == c + written.len(),
            buffer.bytes() == splice(b, c, written),
            records_wire(rs@, c) == prepend_bytes(
                written,
                records_wire(rs@.subrange(i as int, rs@.len() as int), buffer.cursor() as int),
            ),
        decreases rs@.len() - i,
    {
        let ghost rest = rs@.subrange(i as int, rs@.len() as int);
        proof {
            assert(rest[0] == rs@[i as int]);
            assert(rest.drop_first() =~= rs@.subrange(i + 1, rs@.len() as int));
        }
        rs[i].write(buffer)?;
        proof {
            let w = record_wire(rs@[i as int]@, c + written.len())->Ok_0;
            lemma_splice_concat(b, c, written, w);
            let tail = records_wire(rs@.subrange(i + 1, rs@.len() as int), c + written.len() + w.len());
            if tail is Ok {
                assert(written + (w + tail->Ok_0) =~= (written + w) + tail->Ok_0);
            }
            written = written + w;
        }
        i = i + 1;
    }
    proof {
        assert(written + Seq::<u8>::empty() =~= written);
    }
    Ok(())
}

impl DnsPacket {
    /// Reads a whole message at the cursor: the header, then as many
    /// questions, answers, authority and additional records as it counts.
    pub fn from_buffer(buffer: &mut PacketBuffer) -> (r: Result<Self, DnsError>)
        ensures
            final(buffer).bytes() == old(buffer).bytes(),
            match packet_at(old(buffer).bytes(), old(buffer).cursor() as int) {
                Ok((qs, ans, auth, res, end)) => r is Ok && header_from(
                    r->Ok_0.header,
                    old(buffer).bytes(),
                    old(buffer).cursor() as int,
                ) && questions_match(r->Ok_0.questions@, qs) && records_match(
                    r->Ok_0.answers@,
                    ans,
                ) && records_match(r->Ok_0.authorities@, auth) && records_match(
                    r->Ok_0.resources@,
                    res,
                ) && final(buffer).cursor() == end,
                Err(e) => r == Err::<DnsPacket, DnsError>(e),
            },
    {
        reveal(packet_at);
        let ghost b = buffer.bytes();
        let ghost c = buffer.cursor() as int;
        let mut res = Self::default();
        res.header.read(buffer)?;
        let nq = res.header.questions;
        let ghost mut acc: Seq<(Seq<Seq<u8>>, u16)> = Seq::empty();
        let mut i: u16 = 0;
        proof {
            let all = questions_at(b, c + 12, nq as nat);
            if all is Ok {
                assert(acc + all->Ok_0.0 =~= all->Ok_0.0);
            }
        }
        while i < nq
            invariant
                i <= nq,
                buffer.bytes() == b,
                b == old(buffer).bytes(),
                c == old(buffer).cursor(),
                c + 12 <= 512,
                header_from(res.header, b, c),
                nq == res.header.questions,
                res.answers@.len() == 0,
                res.authorities@.len() == 0,
                res.resources@.len() == 0,
                questions_match(res.questions@, acc),
                questions_at(b, c + 12, nq as nat) == prepend_questions(
                    acc,
                    questions_at(b, buffer.cursor() as int, (nq - i) as nat),
                ),
            decreases nq - i,
        {
            proof {
                reveal(packet_at);
            }
            let ghost p = buffer.cursor() as int;
            let mut question = DnsQuestion::new(String::new(), QueryType::Unknown(0));
            question.read(buffer)?;
            let ghost entry = (question_at(b, p)->Ok_0.0, question_at(b, p)->Ok_0.1);
            proof {
                assert(question.name@ =~= name_text(entry.0));
                let next = questions_at(b, buffer.cursor() as int, (nq - i - 1) as nat);
                if next is Ok {
                    assert(acc + (seq![entry] + next->Ok_0.0) =~= acc.push(entry) + next->Ok_0.0);
                }
            }
            res.questions.push(question);
            proof {
                acc = acc.push(entry);
            }
            i = i + 1;
        }
        proof {
            assert(acc + Seq::<(Seq<Seq<u8>>, u16)>::empty() =~= acc);
        }
        read_records(buffer, res.header.answers, &mut res.answers)?;
        proof {
            assert(res.answers@.subrange(0, res.answers@.len() as int) =~= res.answers@);
        }
        read_records(buffer, res.header.authorative_entries, &mut res.authorities)?;
        proof {
            assert(res.authorities@.subrange(0, res.authorities@.len() as int)
                =~= res.authorities@);
        }
        read_records(buffer, res.header.resource_entries, &mut res.resources)?;
        proof {
            assert(res.resources@.subrange(0, res.resources@.len() as int) =~= res.resources@);
        }
        Ok(res)
    }

    /// Writes the whole message at the cursor. The header's section counts
    /// are first set from the lengths of the lists.
    pub fn write(&mut self, buffer: &mut PacketBuffer) -> (r: Result<(), DnsError>)
        ensures
            final(self).questions == old(self).questions,
            final(self).answers == old(self).answers,
            final(self).authorities == old(self).authorities,
            final(self).resources == old(self).resources,
            final(self).header == with_counts(
                old(self).header,
                old(self).questions@.len() as u16,
                old(self).answers@.len() as u16,
                old(self).authorities@.len() as u16,
                old(self).resources@.len() as u16,
            ),
            match packet_wire(*final(self), old(buffer).cursor() as int) {
                Ok(w) => r is Ok && final(buffer).bytes() == splice(
                    old(buffer).bytes(),
                    old(buffer).cursor() as int,
                    w,
                ) && final(buffer).cursor() == old(buffer).cursor() + w.len(),
                Err(e) => r == Err::<(), DnsError>(e),
            },
    {
        reveal(packet_wire);
        let ghost b = buffer.bytes();
        let ghost c = buffer.cursor() as int;
        #[verifier::truncate]
        let nq = self.questions.len() as u16;
        #[verifier::truncate]
        let na = self.answers.len() as u16;
        #[verifier::truncate]
        let nu = self.authorities.len() as u16;
        #[verifier::truncate]
        let nr = self.resources.len() as u16;
        self.header.questions = nq;
        self.header.answers = na;
        self.header.authorative_entries = nu;
        self.header.resource_entries = nr;
        self.header.write(buffer)?;
        let ghost mut w = header_wire(self.header);
        write_questions(&self.questions, buffer)?;
        proof {
            let qw = questions_wire(self.questions@, c + 12)->Ok_0;
            lemma_splice_concat(b, c, w, qw);
            w = w + qw;
        }
        let ghost w1 = w;
        write_records(&self.answers, buffer)?;
        proof {
            let aw = records_wire(self.answers@, c + w.len())->Ok_0;
            lemma_splice_concat(b, c, w, aw);
            w = w + aw;
        }
        let ghost w2 = w;
        write_records(&self.authorities, buffer)?;
        proof {
            let uw = records_wire(self.authorities@, c + w.len())->Ok_0;
            lemma_splice_concat(b, c, w, uw);
            w = w + uw;
        }
        let ghost w3 = w;
        write_records(&self.resources, buffer)?;
        proof {
            let rw = records_wire(self.resources@, c + w.len())->Ok_0;
            lemma_splice_concat(b, c, w, rw);
            w = w + rw;
            assert(packet_wire(*self, c) == Ok::<Seq<u8>, DnsError>(w)) by {
                reveal(packet_wire);
                let hw = header_wire(self.header);
                let qw = questions_wire(self.questions@, c + 12)->Ok_0;
                let aw = records_wire(self.answers@, c + 12 + qw.len())->Ok_0;
                let uw = records_wire(self.authorities@, c + 12 + qw.len() + aw.len())->Ok_0;
                assert(w =~= hw + (qw + (aw + (uw + rw))));
            }
        }
        Ok(())
    }
}

/// The questions as they read back after they were written: the labels of
/// each name, with the code of each type.
pub open spec fn questions_read_back(qs: Seq<DnsQuestion>) -> Seq<(Seq<Seq<u8>>, u16)> {
    Seq::new(
        qs.len(),
        |i: int| (name_split(encode_utf8(qs[i].name@)), query_type_code(qs[i].qtype)),
    )
}

/// The records as they read back after they were written.
pub open spec fn records_read_back(rs: Seq<DnsRecord>) -> Seq<RecordView> {
    Seq::new(rs.len(), |i: int| record_read_back(rs[i]@))
}

/// Every question has a name that reads back as it was written.
pub open spec fn well_formed_questions(qs: Seq<DnsQuestion>) -> bool {
    forall|i: int| 0 <= i < qs.len() ==> well_formed_name(#[trigger] qs[i].name@)
}

/// Every record is written at all, with names that read back.
pub open spec fn well_formed_records(rs: Seq<DnsRecord>) -> bool {
    forall|i: int| 0 <= i < rs.len() ==> well_formed_record(#[trigger] rs[i]@)
}

/// Questions whose bytes are held at offset `c` of `b` read back one after
/// another from there.
pub proof fn lemma_questions_read(b: Seq<u8>, c: int, qs: Seq<DnsQuestion>)
    requires
        b.len() == 512,
        0 <= c,
        well_formed_questions(qs),
        questions_wire(qs, c) is Ok,
        holds_at(b, c, questions_wire(qs, c)->Ok_0),
    ensures
        questions_at(b, c, qs.len()) == Ok::<(Seq<(Seq<Seq<u8>>, u16)>, int), DnsError>(
            (questions_read_back(qs), c + questions_wire(qs, c)->Ok_0.len()),
        ),
    decreases qs.len(),
{
    if qs.len() == 0 {
        assert(questions_read_back(qs) =~= Seq::<(Seq<Seq<u8>>, u16)>::empty());
    } else {
        let q = qs[0];
        let w = question_wire(q.name@, q.qtype, c)->Ok_0;
        let rest = qs.drop_first();
        let rw = questions_wire(rest, c + w.len())->Ok_0;
        lemma_holds_split(b, c, w, rw);
        assert(well_formed_name(qs[0].name@));
        lemma_question_read(b, c, q.name@, q.qtype);
        assert forall|i: int| 0 <= i < rest.len() implies well_formed_name(
            #[trigger] rest[i].name@,
        ) by {
            assert(rest[i] == qs[i + 1]);
        }
        lemma_questions_read(b, c + w.len(), rest);
        assert((qs.len() - 1) as nat == rest.len());
        assert(seq![(name_split(encode_utf8(q.name@)), query_type_code(q.qtype))]
            + questions_read_back(rest) =~= questions_read_back(qs));
    }
}

/// Records whose bytes are held at offset `c` of `b` read back one after
/// another from there.
pub proof fn lemma_records_read(b: Seq<u8>, c: int, rs: Seq<DnsRecord>)
    requires
        b.len() == 512,
        0 <= c,
        well_formed_records(rs),
        records_wire(rs, c) is Ok,
        holds_at(b, c, records_wire(rs, c)->Ok_0),
    ensures
        records_at(b, c, rs.len()) == Ok::<(Seq<RecordView>, int), DnsError>(
            (records_read_back(rs), c + records_wire(rs, c)->Ok_0.len()),
        ),
    decreases rs.len(),
{
    if rs.len() == 0 {
        assert(records_read_back(rs) =~= Seq::<RecordView>::empty());
    } else {
        let r = rs[0];
        let w = record_wire(r@, c)->Ok_0;
        let rest = rs.drop_first();
        let rw = records_wire(rest, c + w.len())->Ok_0;
        lemma_holds_split(b, c, w, rw);
        assert(well_formed_record(rs[0]@));
        lemma_record_read(b, c, r@);
        assert forall|i: int| 0 <= i < rest.len() implies well_formed_record(#[trigger] rest[i]@) by {
            assert(rest[i] == rs[i + 1]);
        }
        lemma_records_read(b, c + w.len(), rest);
        assert((rs.len() - 1) as nat == rest.len());
        assert(seq![record_read_back(r@)] + records_read_back(rest) =~= records_read_back(rs));
    }
}

/// A message written at offset `c` and read back from there has the same
/// header; its questions come back as the labels of their names with their
/// type codes, the records of each section as they were with their names
/// as the text of their labels, each in its own list; and reading ends just past what was written. This holds of a message whose
/// section counts are the lengths of its lists (as writing makes them), whose
/// opcode fits in four bits, and whose names and records read back.
#[verifier::rlimit(100)]
pub proof fn lemma_packet_round_trip(s: Seq<u8>, c: int, p: DnsPacket)
    requires
        s.len() == 512,
        0 <= c,
        p.header.opcode < 16,
        p.header.questions == p.questions@.len(),
        p.header.answers == p.answers@.len(),
        p.header.authorative_entries == p.authorities@.len(),
        p.header.resource_entries == p.resources@.len(),
        well_formed_questions(p.questions@),
        well_formed_records(p.answers@),
        well_formed_records(p.authorities@),
        well_formed_records(p.resources@),
        packet_wire(p, c) is Ok,
    ensures
        ({
            let w = packet_wire(p, c)->Ok_0;
            let b = splice(s, c, w);
            &&& packet_at(b, c) == Ok::<PacketSections, DnsError>(
                (
                    questions_read_back(p.questions@),
                    records_read_back(p.answers@),
                    records_read_back(p.authorities@),
                    records_read_back(p.resources@),
                    c + w.len(),
                ),
            )
            &&& forall|h2: DnsHeader| header_from(h2, b, c) ==> h2 == p.header
        }),
{
    lemma_packet_wire_parts(p, c);
    let w = packet_wire(p, c)->Ok_0;
    let b = splice(s, c, w);
    let hw = header_wire(p.header);
    let qpos = c + 12;
    let qw = questions_wire(p.questions@, qpos)->Ok_0;
    let aw = records_wire(p.answers@, qpos + qw.len())->Ok_0;
    let uw = records_wire(p.authorities@, qpos + qw.len() + aw.len())->Ok_0;
    let rw = records_wire(p.resources@, qpos + qw.len() + aw.len() + uw.len())->Ok_0;
    lemma_packet_wire_fits(p, c);
    assert(holds_at(b, c, w)) by {
        assert(b.subrange(c, c + w.len()) =~= w);
    }
    lemma_holds_split(b, c, hw, qw + (aw + (uw + rw)));
    lemma_holds_split(b, qpos, qw, aw + (uw + rw));
    lemma_holds_split(b, qpos + qw.len(), aw, uw + rw);
    lemma_holds_split(b, qpos + qw.len() + aw.len(), uw, rw);
    lemma_header_held(b, s, c, p.header);
    lemma_questions_read(b, qpos, p.questions@);
    lemma_records_read(b, qpos + qw.len(), p.answers@);
    lemma_records_read(b, qpos + qw.len() + aw.len(), p.authorities@);
    lemma_records_read(b, qpos + qw.len() + aw.len() + uw.len(), p.resources@);
    reveal(packet_at);
}

/// The bytes of a message are those of its header, questions, answers,
/// authority and additional records, one after another.
proof fn lemma_packet_wire_parts(p: DnsPacket, c: int)
    requires
        packet_wire(p, c) is Ok,
    ensures
        ({
            let qpos = c + 12;
            let qr = questions_wire(p.questions@, qpos);
            let ar = records_wire(p.answers@, qpos + qr->Ok_0.len());
            let ur = records_wire(p.authorities@, qpos + qr->Ok_0.len() + ar->Ok_0.len());
            let rr = records_wire(
                p.resources@,
                qpos + qr->Ok_0.len() + ar->Ok_0.len() + ur->Ok_0.len(),
            );
            &&& c + 12 <= 512
            &&& qr is Ok && ar is Ok && ur is Ok && rr is Ok
            &&& packet_wire(p, c)->Ok_0 == header_wire(p.header) + (qr->Ok_0 + (ar->Ok_0 + (
            ur->Ok_0 + rr->Ok_0)))
        }),
{
    reveal(packet_wire);
}

/// A header whose bytes are held at offset `c` of `b` reads back as itself.
proof fn lemma_header_held(b: Seq<u8>, s: Seq<u8>, c: int, h: DnsHeader)
    requires
        b.len() == 512,
        s.len() == 512,
        0 <= c,
        c + 12 <= 512,
        h.opcode < 16,
        holds_at(b, c, header_wire(h)),
    ensures
        header_from(h, b, c),
        forall|h2: DnsHeader| header_from(h2, b, c) ==> h2 == h,
{
    let hw = header_wire(h);
    let bh = splice(s, c, hw);
    lemma_header_round_trip(h, s, c);
    assert forall|k: int| 0 <= k < 12 implies #[trigger] b[c + k] == bh[c + k] by {
        assert(b.subrange(c, c + 12)[k] == hw[k]);
    }
    assert(header_from(h, b, c));
    assert forall|h2: DnsHeader| header_from(h2, b, c) implies h2 == h by {
        assert(header_from(h2, bh, c));
    }
}

/// The bytes of a message end within the buffer.
pub proof fn lemma_packet_wire_fits(p: DnsPacket, c: int)
    requires
        0 <= c,
        packet_wire(p, c) is Ok,
    ensures
        c + packet_wire(p, c)->Ok_0.len() <= 512,
{
    lemma_packet_wire_parts(p, c);
    let qpos = c + 12;
    lemma_questions_wire_fits(p.questions@, qpos);
    let qw = questions_wire(p.questions@, qpos)->Ok_0;
    lemma_records_wire_fits(p.answers@, qpos + qw.len());
    let aw = records_wire(p.answers@, qpos + qw.len())->Ok_0;
    lemma_records_wire_fits(p.authorities@, qpos + qw.len() + aw.len());
    let uw = records_wire(p.authorities@, qpos + qw.len() + aw.len())->Ok_0;
    lemma_records_wire_fits(p.resources@, qpos + qw.len() + aw.len() + uw.len());
}

/// The bytes of questions written from within the buffer end within it.
pub proof fn lemma_questions_wire_fits(qs: Seq<DnsQuestion>, c: int)
    requires
        0 <= c <= 512,
        questions_wire(qs, c) is Ok,
    ensures
        c + questions_wire(qs, c)->Ok_0.len() <= 512,
    decreases qs.len(),
{
    if qs.len() > 0 {
        let w = question_wire(qs[0].name@, qs[0].qtype, c)->Ok_0;
        lemma_questions_wire_fits(qs.drop_first(), c + w.len());
    }
}

/// The bytes of records written from within the buffer end within it.
pub proof fn lemma_records_wire_fits(rs: Seq<DnsRecord>, c: int)
    requires
        0 <= c <= 512,
        records_wire(rs, c) is Ok,
    ensures
        c + records_wire(rs, c)->Ok_0.len() <= 512,
    decreases rs.len(),
{
    if rs.len() > 0 {
        let w = record_wire(rs[0]@, c)->Ok_0;
        if rs[0]@ is Unknown {
            reveal(record_wire);
        } else {
            lemma_record_wire_fits(rs[0]@, c);
        }
        lemma_records_wire_fits(rs.drop_first(), c + w.len());
    }
}

/// Questions that are written take at least one byte each.
proof fn lemma_questions_wire_len(qs: Seq<DnsQuestion>, c: int)
    requires
        questions_wire(qs, c) is Ok,
    ensures
        questions_wire(qs, c)->Ok_0.len() >= qs.len(),
    decreases qs.len(),
{
    if qs.len() > 0 {
        let w = question_wire(qs[0].name@, qs[0].qtype, c)->Ok_0;
        lemma_questions_wire_len(qs.drop_first(), c + w.len());
    }
}

/// Records that are all written take at least one byte each.
proof fn lemma_records_wire_len(rs: Seq<DnsRecord>, c: int)
    requires
        well_formed_records(rs),
        records_wire(rs, c) is Ok,
    ensures
        records_wire(rs, c)->Ok_0.len() >= rs.len(),
    decreases rs.len(),
{
    if rs.len() > 0 {
        reveal(record_wire);
        assert(well_formed_record(rs[0]@));
        let w = record_wire(rs[0]@, c)->Ok_0;
        let rest = rs.drop_first();
        assert forall|i: int| 0 <= i < rest.len() implies well_formed_record(#[trigger] rest[i]@) by {
            assert(rest[i] == rs[i + 1]);
        }
        lemma_records_wire_len(rest, c + w.len());
    }
}

/// What `write` puts down for a message reads back with `from_buffer`: the
/// header as `write` left it, with its counts set to the lengths of the lists,
/// and each section as in `lemma_packet_round_trip`. Here `p` is the message
/// before the call and `q` is the message after it.
pub proof fn lemma_write_read_back(s: Seq<u8>, c: int, p: DnsPacket, q: DnsPacket)
    requires
        s.len() == 512,
        0 <= c,
        p.header.opcode < 16,
        well_formed_questions(p.questions@),
        well_formed_records(p.answers@),
        well_formed_records(p.authorities@),
        well_formed_records(p.resources@),
        q.questions == p.questions,
        q.answers == p.answers,
        q.authorities == p.authorities,
        q.resources == p.resources,
        q.header == with_counts(
            p.header,
            p.questions@.len() as u16,
            p.answers@.len() as u16,
            p.authorities@.len() as u16,
            p.resources@.len() as u16,
        ),
        packet_wire(q, c) is Ok,
    ensures
        ({
            let w = packet_wire(q, c)->Ok_0;
            let b = splice(s, c, w);
            &&& packet_at(b, c) == Ok::<PacketSections, DnsError>(
                (
                    questions_read_back(p.questions@),
                    records_read_back(p.answers@),
                    records_read_back(p.authorities@),
                    records_read_back(p.resources@),
                    c + w.len(),
                ),
            )
            &&& forall|h2: DnsHeader| header_from(h2, b, c) ==> h2 == q.header
            &&& q.header.questions == p.questions@.len()
            &&& q.header.answers == p.answers@.len()
            &&& q.header.authorative_entries == p.authorities@.len()
            &&& q.header.resource_entries == p.resources@.len()
        }),
{
    lemma_packet_wire_parts(q, c);
    lemma_packet_wire_fits(q, c);
    let qpos = c + 12;
    let qw = questions_wire(q.questions@, qpos)->Ok_0;
    let aw = records_wire(q.answers@, qpos + qw.len())->Ok_0;
    let uw = records_wire(q.authorities@, qpos + qw.len() + aw.len())->Ok_0;
    let rw = records_wire(q.resources@, qpos + qw.len() + aw.len() + uw.len())->Ok_0;
    lemma_questions_wire_len(q.questions@, qpos);
    lemma_records_wire_len(q.answers@, qpos + qw.len());
    lemma_records_wire_len(q.authorities@, qpos + qw.len() + aw.len());
    lemma_records_wire_len(q.resources@, qpos + qw.len() + aw.len() + uw.len());
    lemma_packet_round_trip(s, c, q);
}

} // verus!
