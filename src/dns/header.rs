use vstd::prelude::*;

use crate::buffer::{be16, lemma_splice_concat, lemma_u16_bytes, lemma_splice_push, splice, u16_bytes, PacketBuffer};
use crate::dns::{rescode_of, rescode_value, ResCode};
use crate::error::DnsError;

verus! {

/// The fixed 12-byte header of a message.
#[derive(Debug, Clone)]
pub struct DnsHeader {
    pub id: u16,
    pub recursion_desired: bool,
    pub truncated_message: bool,
    pub authorative_answer: bool,
    pub opcode: u8,
    pub response: bool,
    pub rescode: ResCode,
    pub checking_disabled: bool,
    pub authed_data: bool,
    pub z: bool,
    pub recursion_available: bool,
    pub questions: u16,
    pub answers: u16,
    pub authorative_entries: u16,
    pub resource_entries: u16,
}

/// The first flag byte of a header: recursion desired (bit 0), truncated
/// (bit 1), authoritative answer (bit 2), opcode (bits 3 to 6), response (bit 7).
pub open spec fn flags_hi(h: DnsHeader) -> u8 {
    (h.recursion_desired as u8) | ((h.truncated_message as u8) << 1u8) | ((
    h.authorative_answer as u8) << 2u8) | (h.opcode << 3u8) | ((h.response as u8) << 7u8)
}

/// The second flag byte of a header: response code (bits 0 to 3), checking
/// disabled (bit 4), authenticated data (bit 5), z (bit 6), recursion
/// available (bit 7).
pub open spec fn flags_lo(h: DnsHeader) -> u8 {
    rescode_value(h.rescode) | ((h.checking_disabled as u8) << 4u8) | ((h.authed_data as u8)
        << 5u8) | ((h.z as u8) << 6u8) | ((h.recursion_available as u8) << 7u8)
}

/// The 12 bytes that encode a header.
pub open spec fn header_wire(h: DnsHeader) -> Seq<u8> {
    u16_bytes(h.id) + seq![flags_hi(h), flags_lo(h)] + u16_bytes(h.questions) + u16_bytes(
        h.answers,
    ) + u16_bytes(h.authorative_entries) + u16_bytes(h.resource_entries)
}

/// The header that the 12 bytes of `b` from `c` on encode.
pub open spec fn header_from(h: DnsHeader, b: Seq<u8>, c: int) -> bool {
    let a = b[c + 2];
    let f = b[c + 3];
    &&& h.id == be16(b[c], b[c + 1])
    &&& h.recursion_desired == (a & 1u8 != 0)
    &&& h.truncated_message == (a & 2u8 != 0)
    &&& h.authorative_answer == (a & 4u8 != 0)
    &&& h.opcode == (a >> 3u8) & 0x0fu8
    &&& h.response == (a & 0x80u8 != 0)
    &&& h.rescode == rescode_of(f & 0x0fu8)
    &&& h.checking_disabled == (f & 0x10u8 != 0)
    &&& h.authed_data == (f & 0x20u8 != 0)
    &&& h.z == (f & 0x40u8 != 0)
    &&& h.recursion_available == (f & 0x80u8 != 0)
    &&& h.questions == be16(b[c + 4], b[c + 5])
    &&& h.answers == be16(b[c + 6], b[c + 7])
    &&& h.authorative_entries == be16(b[c + 8], b[c + 9])
    &&& h.resource_entries == be16(b[c + 10], b[c + 11])
}

/// The two bytes of a big-endian 16-bit value are its high and low byte.
pub proof fn lemma_be16_split(hi: u8, lo: u8)
    ensures
        (be16(hi, lo) >> 8u16) as u8 == hi,
        (be16(hi, lo) & 0xffu16) as u8 == lo,
{
    assert((((hi as u16) << 8u16) | (lo as u16)) >> 8u16 == hi as u16) by (bit_vector);
    assert((((hi as u16) << 8u16) | (lo as u16)) & 0xffu16 == lo as u16) by (bit_vector);
}

/// The bits of a flag byte read back as they were packed.
proof fn lemma_flag_bits(x0: u8, x1: u8, x2: u8, op: u8, x7: u8)
    requires
        x0 <= 1,
        x1 <= 1,
        x2 <= 1,
        op < 16,
        x7 <= 1,
    ensures
        ((x0 | (x1 << 1u8) | (x2 << 2u8) | (op << 3u8) | (x7 << 7u8)) & 1u8 != 0) == (x0 == 1),
        ((x0 | (x1 << 1u8) | (x2 << 2u8) | (op << 3u8) | (x7 << 7u8)) & 2u8 != 0) == (x1 == 1),
        ((x0 | (x1 << 1u8) | (x2 << 2u8) | (op << 3u8) | (x7 << 7u8)) & 4u8 != 0) == (x2 == 1),
        ((x0 | (x1 << 1u8) | (x2 << 2u8) | (op << 3u8) | (x7 << 7u8)) >> 3u8) & 0x0fu8 == op,
        ((x0 | (x1 << 1u8) | (x2 << 2u8) | (op << 3u8) | (x7 << 7u8)) & 0x80u8 != 0) == (x7 == 1),
{
    assert(((x0 | (x1 << 1u8) | (x2 << 2u8) | (op << 3u8) | (x7 << 7u8)) & 1u8 != 0) == (x0 == 1))
        by (bit_vector)
        requires
            x0 <= 1,
            x1 <= 1,
            x2 <= 1,
            op < 16,
            x7 <= 1,
    ;
    assert(((x0 | (x1 << 1u8) | (x2 << 2u8) | (op << 3u8) | (x7 << 7u8)) & 2u8 != 0) == (x1 == 1))
        by (bit_vector)
        requires
            x0 <= 1,
            x1 <= 1,
            x2 <= 1,
            op < 16,
            x7 <= 1,
    ;
    assert(((x0 | (x1 << 1u8) | (x2 << 2u8) | (op << 3u8) | (x7 << 7u8)) & 4u8 != 0) == (x2 == 1))
        by (bit_vector)
        requires
            x0 <= 1,
            x1 <= 1,
            x2 <= 1,
            op < 16,
            x7 <= 1,
    ;
    assert(((x0 | (x1 << 1u8) | (x2 << 2u8) | (op << 3u8) | (x7 << 7u8)) >> 3u8) & 0x0fu8 == op)
        by (bit_vector)
        requires
            x0 <= 1,
            x1 <= 1,
            x2 <= 1,
            op < 16,
            x7 <= 1,
    ;
    assert(((x0 | (x1 << 1u8) | (x2 << 2u8) | (op << 3u8) | (x7 << 7u8)) & 0x80u8 != 0) == (x7
        == 1)) by (bit_vector)
        requires
            x0 <= 1,
            x1 <= 1,
            x2 <= 1,
            op < 16,
            x7 <= 1,
    ;
}

/// The bits of the second flag byte read back as they were packed.
proof fn lemma_flag_bits_lo(rc: u8, x4: u8, x5: u8, x6: u8, x7: u8)
    requires
        rc < 16,
        x4 <= 1,
        x5 <= 1,
        x6 <= 1,
        x7 <= 1,
    ensures
        (rc | (x4 << 4u8) | (x5 << 5u8) | (x6 << 6u8) | (x7 << 7u8)) & 0x0fu8 == rc,
        ((rc | (x4 << 4u8) | (x5 << 5u8) | (x6 << 6u8) | (x7 << 7u8)) & 0x10u8 != 0) == (x4 == 1),
        ((rc | (x4 << 4u8) | (x5 << 5u8) | (x6 << 6u8) | (x7 << 7u8)) & 0x20u8 != 0) == (x5 == 1),
        ((rc | (x4 << 4u8) | (x5 << 5u8) | (x6 << 6u8) | (x7 << 7u8)) & 0x40u8 != 0) == (x6 == 1),
        ((rc | (x4 << 4u8) | (x5 << 5u8) | (x6 << 6u8) | (x7 << 7u8)) & 0x80u8 != 0) == (x7 == 1),
{
    assert((rc | (x4 << 4u8) | (x5 << 5u8) | (x6 << 6u8) | (x7 << 7u8)) & 0x0fu8 == rc)
        by (bit_vector)
        requires
            rc < 16,
            x4 <= 1,
            x5 <= 1,
            x6 <= 1,
            x7 <= 1,
    ;
    assert(((rc | (x4 << 4u8) | (x5 << 5u8) | (x6 << 6u8) | (x7 << 7u8)) & 0x10u8 != 0) == (x4
        == 1)) by (bit_vector)
        requires
            rc < 16,
            x4 <= 1,
            x5 <= 1,
            x6 <= 1,
            x7 <= 1,
    ;
    assert(((rc | (x4 << 4u8) | (x5 << 5u8) | (x6 << 6u8) | (x7 << 7u8)) & 0x20u8 != 0) == (x5
        == 1)) by (bit_vector)
        requires
            rc < 16,
            x4 <= 1,
            x5 <= 1,
            x6 <= 1,
            x7 <= 1,
    ;
    assert(((rc | (x4 << 4u8) | (x5 << 5u8) | (x6 << 6u8) | (x7 << 7u8)) & 0x40u8 != 0) == (x6
        == 1)) by (bit_vector)
        requires
            rc < 16,
            x4 <= 1,
            x5 <= 1,
            x6 <= 1,
            x7 <= 1,
    ;
    assert(((rc | (x4 << 4u8) | (x5 << 5u8) | (x6 << 6u8) | (x7 << 7u8)) & 0x80u8 != 0) == (x7
        == 1)) by (bit_vector)
        requires
            rc < 16,
            x4 <= 1,
            x5 <= 1,
            x6 <= 1,
            x7 <= 1,
    ;
}

/// A header written at offset `c` and read back from there is the same
/// header, provided its opcode fits in its four bits.
pub proof fn lemma_header_round_trip(h: DnsHeader, s: Seq<u8>, c: int)
    requires
        s.len() == 512,
        0 <= c,
        c + 12 <= 512,
        h.opcode < 16,
    ensures
        header_from(h, splice(s, c, header_wire(h)), c),
        forall|h2: DnsHeader| header_from(h2, splice(s, c, header_wire(h)), c) ==> h2 == h,
{
    let b = splice(s, c, header_wire(h));
    lemma_u16_bytes(h.id);
    lemma_u16_bytes(h.questions);
    lemma_u16_bytes(h.answers);
    lemma_u16_bytes(h.authorative_entries);
    lemma_u16_bytes(h.resource_entries);
    assert(b[c + 2] == flags_hi(h));
    assert(b[c + 3] == flags_lo(h));
    lemma_flag_bits(
        h.recursion_desired as u8,
        h.truncated_message as u8,
        h.authorative_answer as u8,
        h.opcode,
        h.response as u8,
    );
    lemma_flag_bits_lo(
        rescode_value(h.rescode),
        h.checking_disabled as u8,
        h.authed_data as u8,
        h.z as u8,
        h.recursion_available as u8,
    );
    assert(header_from(h, b, c));
}

/// The header of a new message: every field zero or false, response code
/// `NOERROR`.
pub open spec fn default_header() -> DnsHeader {
    DnsHeader {
        id: 0,
        recursion_desired: false,
        truncated_message: false,
        authorative_answer: false,
        opcode: 0,
        response: false,
        rescode: ResCode::NOERROR,
        checking_disabled: false,
        authed_data: false,
        z: false,
        recursion_available: false,
        questions: 0,
        answers: 0,
        authorative_entries: 0,
        resource_entries: 0,
    }
}

impl Default for DnsHeader {
    fn default() -> (r: Self)
        ensures
            r == default_header(),
    {
        DnsHeader {
            id: 0,
            recursion_desired: false,
            truncated_message: false,
            authorative_answer: false,
            opcode: 0,
            response: false,
            rescode: ResCode::NOERROR,
            checking_disabled: false,
            authed_data: false,
            z: false,
            recursion_available: false,
            questions: 0,
            answers: 0,
            authorative_entries: 0,
            resource_entries: 0,
        }
    }
}

impl DnsHeader {
    /// Reads the 12 header bytes at the cursor into this header.
    pub fn read(&mut self, buffer: &mut PacketBuffer) -> (r: Result<(), DnsError>)
        ensures
            final(buffer).bytes() == old(buffer).bytes(),
            old(buffer).cursor() + 12 <= 512 ==> r is Ok && header_from(
                *final(self),
                old(buffer).bytes(),
                old(buffer).cursor() as int,
            ) && final(buffer).cursor() == old(buffer).cursor() + 12,
            old(buffer).cursor() + 12 > 512 ==> r == Err::<(), DnsError>(DnsError::OutOfBounds),
    {
        let ghost b = buffer.bytes();
        let ghost c = buffer.cursor() as int;
        self.id = buffer.read_u16()?;
        let flags = buffer.read_u16()?;
        let a = (flags >> 8) as u8;
        let b2 = (flags & 0xff) as u8;
        proof {
            lemma_be16_split(b[c + 2], b[c + 3]);
        }
        self.recursion_desired = (a & 1) > 0;
        self.truncated_message = (a & 2) > 0;
        self.authorative_answer = (a & 4) > 0;
        self.opcode = (a >> 3) & 0x0f;
        self.response = (a & 0x80) > 0;

        self.rescode = ResCode::from(b2 & 0x0f);
        self.checking_disabled = (b2 & 0x10) > 0;
        self.authed_data = (b2 & 0x20) > 0;
        self.z = (b2 & 0x40) > 0;
        self.recursion_available = (b2 & 0x80) > 0;

        self.questions = buffer.read_u16()?;
        self.answers = buffer.read_u16()?;
        self.authorative_entries = buffer.read_u16()?;
        self.resource_entries = buffer.read_u16()?;
        Ok(())
    }

    /// Writes this header at the cursor.
    pub fn write(&mut self, buffer: &mut PacketBuffer) -> (r: Result<(), DnsError>)
        ensures
            *final(self) == *old(self),
            ({
                let (b, c) = (old(buffer).bytes(), old(buffer).cursor() as int);
                &&& c + 12 <= 512 ==> r is Ok && final(buffer).bytes() == splice(
                    b,
                    c,
                    header_wire(*old(self)),
                ) && final(buffer).cursor() == c + 12
                &&& c + 12 > 512 ==> r == Err::<(), DnsError>(DnsError::OutOfBounds)
            }),
    {
        broadcast use PacketBuffer::lemma_bytes_len;
        let ghost b = buffer.bytes();
        let ghost c = buffer.cursor() as int;
        buffer.write_u16(self.id)?;
        let ghost mut w = u16_bytes(self.id);
        buffer.write(
            (self.recursion_desired as u8) | ((self.truncated_message as u8) << 1) | ((
            self.authorative_answer as u8) << 2) | (self.opcode << 3) | ((self.response as u8)
                << 7),
        )?;
        proof {
            lemma_splice_push(b, c, w, flags_hi(*self));
            w = w.push(flags_hi(*self));
        }
        buffer.write(
            self.rescode.value() | ((self.checking_disabled as u8) << 4) | ((self.authed_data as u8)
                << 5) | ((self.z as u8) << 6) | ((self.recursion_available as u8) << 7),
        )?;
        proof {
            lemma_splice_push(b, c, w, flags_lo(*self));
            w = w.push(flags_lo(*self));
        }
        buffer.write_u16(self.questions)?;
        proof {
            lemma_splice_concat(b, c, w, u16_bytes(self.questions));
            w = w + u16_bytes(self.questions);
        }
        buffer.write_u16(self.answers)?;
        proof {
            lemma_splice_concat(b, c, w, u16_bytes(self.answers));
            w = w + u16_bytes(self.answers);
        }
        buffer.write_u16(self.authorative_entries)?;
        proof {
            lemma_splice_concat(b, c, w, u16_bytes(self.authorative_entries));
            w = w + u16_bytes(self.authorative_entries);
        }
        buffer.write_u16(self.resource_entries)?;
        proof {
            lemma_splice_concat(b, c, w, u16_bytes(self.resource_entries));
            w = w + u16_bytes(self.resource_entries);
            assert(w =~= header_wire(*self));
        }
        Ok(())
    }
}

} // verus!
