use vstd::prelude::*;
use vstd::utf8::encode_utf8;

use crate::buffer::{
    be16, holds_at, labels_nonempty, lemma_holds_split, lemma_labels_round_trip,
    lemma_name_wire_fits, lemma_splice_concat, lemma_u16_at, name_end, name_labels, name_split,
    name_wire, splice, u16_bytes, PacketBuffer,
};
use crate::dns::{query_type_code, query_type_of, QueryType};
use crate::error::DnsError;

verus! {

/// A query entry: a domain name and the type asked for. Its class is always IN.
#[derive(Debug, Clone)]
pub struct DnsQuestion {
    pub name: String,
    pub qtype: QueryType,
}

/// The question at offset `c` of the message `b`: the labels of its name, its
/// type code, and where the next entry starts; or why it cannot be read.
pub open spec fn question_at(b: Seq<u8>, c: int) -> Result<(Seq<Seq<u8>>, u16, int), DnsError> {
    match name_labels(b, c, 0) {
        Err(e) => Err(e),
        Ok(labels) => {
            let p = name_end(b, c);
            if p + 4 > 512 {
                Err(DnsError::OutOfBounds)
            } else {
                Ok((labels, be16(b[p], b[p + 1]), p + 4))
            }
        },
    }
}

/// The bytes that encode a question with the given name and type at offset
/// `c`: the name, the type code and the class 1; or why it cannot be written.
pub open spec fn question_wire(name: Seq<char>, qtype: QueryType, c: int) -> Result<
    Seq<u8>,
    DnsError,
> {
    match name_wire(name_split(encode_utf8(name)), c) {
        Err(e) => Err(e),
        Ok(w) => if c + w.len() + 4 > 512 {
            Err(DnsError::OutOfBounds)
        } else {
            Ok(w + u16_bytes(query_type_code(qtype)) + u16_bytes(1))
        },
    }
}

/// A type read back from its own code is the same type, unless it is an
/// `Unknown` that holds the code of a known type.
pub proof fn lemma_query_type_round_trip(t: QueryType)
    requires
        t is Unknown ==> query_type_of(t->Unknown_0) is Unknown,
    ensures
        query_type_of(query_type_code(t)) == t,
{
}

/// A question whose bytes are held at offset `c` of `b` reads back from there
/// with the labels its name was split into and the code of its type.
pub proof fn lemma_question_read(b: Seq<u8>, c: int, name: Seq<char>, qtype: QueryType)
    requires
        b.len() == 512,
        0 <= c,
        labels_nonempty(name_split(encode_utf8(name))),
        question_wire(name, qtype, c) is Ok,
        holds_at(b, c, question_wire(name, qtype, c)->Ok_0),
    ensures
        question_at(b, c) == Ok::<(Seq<Seq<u8>>, u16, int), DnsError>(
            (
                name_split(encode_utf8(name)),
                query_type_code(qtype),
                c + question_wire(name, qtype, c)->Ok_0.len(),
            ),
        ),
{
    let labels = name_split(encode_utf8(name));
    let nw = name_wire(labels, c)->Ok_0;
    let code = query_type_code(qtype);
    lemma_name_wire_fits(labels, c);
    assert(question_wire(name, qtype, c)->Ok_0 =~= nw + (u16_bytes(code) + u16_bytes(1)));
    lemma_holds_split(b, c, nw, u16_bytes(code) + u16_bytes(1));
    lemma_holds_split(b, c + nw.len(), u16_bytes(code), u16_bytes(1));
    lemma_labels_round_trip(b, c, labels, 0);
    lemma_u16_at(b, c + nw.len(), code);
}

/// A question written at offset `c` reads back from there with the labels
/// its name was split into and the code of its type; reading resumes just
/// past what was written.
pub proof fn lemma_question_round_trip(s: Seq<u8>, c: int, name: Seq<char>, qtype: QueryType)
    requires
        s.len() == 512,
        0 <= c,
        labels_nonempty(name_split(encode_utf8(name))),
        question_wire(name, qtype, c) is Ok,
    ensures
        ({
            let w = question_wire(name, qtype, c)->Ok_0;
            question_at(splice(s, c, w), c) == Ok::<(Seq<Seq<u8>>, u16, int), DnsError>(
                (name_split(encode_utf8(name)), query_type_code(qtype), c + w.len()),
            )
        }),
{
    let w = question_wire(name, qtype, c)->Ok_0;
    let b = splice(s, c, w);
    assert(b.subrange(c, c + w.len()) =~= w);
    lemma_question_read(b, c, name, qtype);
}

impl DnsQuestion {
    pub fn new(name: String, qtype: QueryType) -> (r: Self)
        ensures
            r.name == name,
            r.qtype == qtype,
    {
        Self { name, qtype }
    }

    /// Reads a question at the cursor; its name is appended to `self.name`.
    pub fn read(&mut self, buffer: &mut PacketBuffer) -> (r: Result<(), DnsError>)
        ensures
            final(buffer).bytes() == old(buffer).bytes(),
            match question_at(old(buffer).bytes(), old(buffer).cursor() as int) {
                Ok((labels, code, end)) => r is Ok && final(self).name@ == old(self).name@
                    + crate::buffer::name_text(labels) && final(self).qtype == query_type_of(code)
                    && final(buffer).cursor() == end,
                Err(e) => r == Err::<(), DnsError>(e),
            },
    {
        buffer.read_qname(&mut self.name)?;
        self.qtype = QueryType::from(buffer.read_u16()?);
        buffer.read_u16()?;
        Ok(())
    }

    /// Writes this question at the cursor.
    pub fn write(&self, buffer: &mut PacketBuffer) -> (r: Result<(), DnsError>)
        ensures
            match question_wire(self.name@, self.qtype, old(buffer).cursor() as int) {
                Ok(w) => r is Ok && final(buffer).bytes() == splice(
                    old(buffer).bytes(),
                    old(buffer).cursor() as int,
                    w,
                ) && final(buffer).cursor() == old(buffer).cursor() + w.len(),
                Err(e) => r == Err::<(), DnsError>(e),
            },
    {
        broadcast use PacketBuffer::lemma_bytes_len;
        let ghost b = buffer.bytes();
        let ghost c = buffer.cursor() as int;
        buffer.write_qname(self.name.as_str())?;
        let ghost w = name_wire(name_split(encode_utf8(self.name@)), c)->Ok_0;
        let type_num = u16::from(self.qtype);
        buffer.write_u16(type_num)?;
        proof {
            lemma_splice_concat(b, c, w, u16_bytes(type_num));
        }
        buffer.write_u16(1)?;
        proof {
            lemma_splice_concat(b, c, w + u16_bytes(type_num), u16_bytes(1));
        }
        Ok(())
    }
}

} // verus!
