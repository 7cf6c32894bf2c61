use vstd::prelude::*;

use vstd::string::*;

use crate::error::DnsError;

verus! {

/// Capacity of a message buffer: the largest conventional UDP DNS message.
pub const BUF_SIZE: usize = 512;

/// A big-endian 16-bit value from two bytes.
pub open spec fn be16(hi: u8, lo: u8) -> u16 {
    ((hi as u16) << 8u16) | (lo as u16)
}

/// A big-endian 32-bit value from four bytes.
pub open spec fn be32(b0: u8, b1: u8, b2: u8, b3: u8) -> u32 {
    ((b0 as u32) << 24u32) | ((b1 as u32) << 16u32) | ((b2 as u32) << 8u32) | (b3 as u32)
}

/// The bytes `s` with `w` written over them from offset `at` on.
pub open spec fn splice(s: Seq<u8>, at: int, w: Seq<u8>) -> Seq<u8> {
    Seq::new(s.len(), |i: int| if at <= i < at + w.len() { w[i - at] } else { s[i] })
}

/// The two bytes of `v`, most significant first.
pub open spec fn u16_bytes(v: u16) -> Seq<u8> {
    seq![(v >> 8u16) as u8, (v & 0xffu16) as u8]
}

/// The four bytes of `v`, most significant first.
pub open spec fn u32_bytes(v: u32) -> Seq<u8> {
    seq![
        ((v >> 24u32) & 0xffu32) as u8,
        ((v >> 16u32) & 0xffu32) as u8,
        ((v >> 8u32) & 0xffu32) as u8,
        (v & 0xffu32) as u8,
    ]
}

/// Reading back the two bytes written for a 16-bit value gives the value.
pub proof fn lemma_u16_bytes(v: u16)
    ensures
        be16(u16_bytes(v)[0], u16_bytes(v)[1]) == v,
        u16_bytes(v).len() == 2,
{
    let hi = (v >> 8u16) as u8;
    let lo = (v & 0xffu16) as u8;
    assert(((hi as u16) << 8u16) | (lo as u16) == v) by (bit_vector)
        requires
            hi == (v >> 8u16) as u8,
            lo == (v & 0xffu16) as u8,
    ;
}

/// Reading back the four bytes written for a 32-bit value gives the value.
pub proof fn lemma_u32_bytes(v: u32)
    ensures
        be32(u32_bytes(v)[0], u32_bytes(v)[1], u32_bytes(v)[2], u32_bytes(v)[3]) == v,
        u32_bytes(v).len() == 4,
{
    let b0 = ((v >> 24u32) & 0xffu32) as u8;
    let b1 = ((v >> 16u32) & 0xffu32) as u8;
    let b2 = ((v >> 8u32) & 0xffu32) as u8;
    let b3 = (v & 0xffu32) as u8;
    assert(((b0 as u32) << 24u32) | ((b1 as u32) << 16u32) | ((b2 as u32) << 8u32) | (b3 as u32)
        == v) by (bit_vector)
        requires
            b0 == ((v >> 24u32) & 0xffu32) as u8,
            b1 == ((v >> 16u32) & 0xffu32) as u8,
            b2 == ((v >> 8u32) & 0xffu32) as u8,
            b3 == (v & 0xffu32) as u8,
    ;
}

/// Compression pointers that one name may follow.
pub const MAX_JUMPS: u8 = 5;

/// The text of bytes read as UTF-8, with each invalid sequence replaced.
pub uninterp spec fn utf8_lossy_of(b: Seq<u8>) -> Seq<char>;

/// The lower-case form of a text.
pub uninterp spec fn lowercase_of(s: Seq<char>) -> Seq<char>;

/// Relies on `String::from_utf8_lossy`: the text of the bytes, invalid
/// sequences replaced; valid UTF-8 is decoded as it stands.
#[verifier::external_body]
fn decode_lossy(b: &[u8]) -> (r: String)
    ensures
        r@ == utf8_lossy_of(b@),
        vstd::utf8::valid_utf8(b@) ==> r@ == vstd::utf8::decode_utf8(b@),
{
    String::from_utf8_lossy(b).into_owned()
}

/// Relies on `str::to_lowercase`: the lower-case form of the text.
#[verifier::external_body]
fn lowercase(s: &str) -> (r: String)
    ensures
        r@ == lowercase_of(s@),
{
    s.to_lowercase()
}

/// How a label of a decoded name reads: its bytes as text, lower-cased.
pub open spec fn label_text(l: Seq<u8>) -> Seq<char> {
    lowercase_of(utf8_lossy_of(l))
}

/// The dotted text of a sequence of labels.
pub open spec fn name_text(labels: Seq<Seq<u8>>) -> Seq<char>
    decreases labels.len(),
{
    if labels.len() == 0 {
        Seq::empty()
    } else if labels.len() == 1 {
        label_text(labels[0])
    } else {
        name_text(labels.drop_last()) + seq!['.'] + label_text(labels.last())
    }
}

/// The offset that a compression pointer with bytes `hi`, `lo` refers to.
pub open spec fn pointer_target(hi: u8, lo: u8) -> u16 {
    (((hi as u16) ^ 0xc0u16) << 8u16) | (lo as u16)
}

/// `acc` followed by the labels of `res`, or the error of `res`.
pub open spec fn prepend_labels(
    acc: Seq<Seq<u8>>,
    res: Result<Seq<Seq<u8>>, DnsError>,
) -> Result<Seq<Seq<u8>>, DnsError> {
    match res {
        Ok(rest) => Ok(acc + rest),
        Err(e) => Err(e),
    }
}

/// The labels of the name at offset `pos` of the message `b`, when `jumps`
/// compression pointers have been followed already; or why it cannot be read.
/// A byte with its top two bits set starts a pointer; a zero byte ends the
/// name; any other byte is the length of a label that follows.
pub open spec fn name_labels(b: Seq<u8>, pos: int, jumps: int) -> Result<Seq<Seq<u8>>, DnsError>
    decreases 6 - jumps, 512 - pos,
{
    if jumps > MAX_JUMPS {
        Err(DnsError::JumpsExceed)
    } else if pos < 0 || pos >= 512 {
        Err(DnsError::OutOfBounds)
    } else if b[pos] >= 0xc0 {
        if pos + 1 >= 512 {
            Err(DnsError::OutOfBounds)
        } else {
            name_labels(b, pointer_target(b[pos], b[pos + 1]) as int, jumps + 1)
        }
    } else if b[pos] == 0 {
        Ok(Seq::empty())
    } else if pos + 1 + b[pos] >= 512 {
        Err(DnsError::OutOfBounds)
    } else {
        prepend_labels(
            seq![b.subrange(pos + 1, pos + 1 + b[pos])],
            name_labels(b, pos + 1 + b[pos], jumps),
        )
    }
}

/// Whether the walk over the name at `pos` meets a compression pointer before
/// it ends or fails.
pub open spec fn reaches_pointer(b: Seq<u8>, pos: int) -> bool
    decreases 512 - pos,
{
    if pos < 0 || pos >= 512 {
        false
    } else if b[pos] >= 0xc0 {
        true
    } else if b[pos] == 0 || pos + 1 + b[pos] >= 512 {
        false
    } else {
        reaches_pointer(b, pos + 1 + b[pos])
    }
}

/// Where reading resumes after the name at `pos`: just past its first
/// compression pointer, or else just past its terminating zero byte.
pub open spec fn name_end(b: Seq<u8>, pos: int) -> int
    decreases 512 - pos,
{
    if pos < 0 || pos >= 512 {
        pos
    } else if b[pos] >= 0xc0 {
        pos + 2
    } else if b[pos] == 0 {
        pos + 1
    } else if pos + 1 + b[pos] >= 512 {
        pos
    } else {
        name_end(b, pos + 1 + b[pos])
    }
}

/// The labels of a name text given as bytes, split at each `.`, starting at
/// index `i` with the bytes `cur` of the current label collected so far.
pub open spec fn split_from(b: Seq<u8>, i: int, cur: Seq<u8>) -> Seq<Seq<u8>>
    decreases b.len() - i,
{
    if i >= b.len() {
        seq![cur]
    } else if b[i] == 46u8 {
        seq![cur] + split_from(b, i + 1, Seq::empty())
    } else {
        split_from(b, i + 1, cur.push(b[i]))
    }
}

/// The labels of a name text given as bytes: the pieces between its dots.
pub open spec fn name_split(b: Seq<u8>) -> Seq<Seq<u8>> {
    split_from(b, 0, Seq::empty())
}

/// `w` followed by the bytes of `res`, or the error of `res`.
pub open spec fn prepend_bytes(w: Seq<u8>, res: Result<Seq<u8>, DnsError>) -> Result<
    Seq<u8>,
    DnsError,
> {
    match res {
        Ok(rest) => Ok(w + rest),
        Err(e) => Err(e),
    }
}

/// The wire form of a name with the given labels, written from offset `pos`:
/// each label as its length and its bytes, then a zero byte. Or the first
/// problem met on the way: a label over 63 bytes, or the end of the buffer.
pub open spec fn name_wire(labels: Seq<Seq<u8>>, pos: int) -> Result<Seq<u8>, DnsError>
    decreases labels.len(),
{
    if labels.len() == 0 {
        if pos >= 512 {
            Err(DnsError::OutOfBounds)
        } else {
            Ok(seq![0u8])
        }
    } else if labels[0].len() > 63 {
        Err(DnsError::LabelLengthExceed)
    } else if pos + 1 + labels[0].len() > 512 {
        Err(DnsError::OutOfBounds)
    } else {
        prepend_bytes(
            seq![labels[0].len() as u8] + labels[0],
            name_wire(labels.drop_first(), pos + 1 + labels[0].len()),
        )
    }
}

/// The bytes that writing a name with the given labels from offset `pos`
/// puts down, whether or not it succeeds: those of `name_wire` when it
/// succeeds; the labels before an over-long one; or, when the buffer ends,
/// everything up to its last byte.
pub open spec fn name_written(labels: Seq<Seq<u8>>, pos: int) -> Seq<u8>
    decreases labels.len(),
{
    if labels.len() == 0 {
        if pos >= 512 {
            Seq::empty()
        } else {
            seq![0u8]
        }
    } else if labels[0].len() > 63 {
        Seq::empty()
    } else if pos + 1 + labels[0].len() > 512 {
        if pos >= 512 {
            Seq::empty()
        } else {
            (seq![labels[0].len() as u8] + labels[0]).take(512 - pos)
        }
    } else {
        seq![labels[0].len() as u8] + labels[0] + name_written(
            labels.drop_first(),
            pos + 1 + labels[0].len(),
        )
    }
}

/// A name that runs into the end of the buffer is written up to its last
/// byte.
pub proof fn lemma_name_written_to_end(labels: Seq<Seq<u8>>, pos: int)
    requires
        0 <= pos <= 512,
        name_wire(labels, pos) == Err::<Seq<u8>, DnsError>(DnsError::OutOfBounds),
    ensures
        pos + name_written(labels, pos).len() == 512,
    decreases labels.len(),
{
    if labels.len() > 0 && labels[0].len() <= 63 && pos + 1 + labels[0].len() <= 512 {
        lemma_name_written_to_end(labels.drop_first(), pos + 1 + labels[0].len());
    }
}

/// Writing one byte more at the end of a spliced range.
pub proof fn lemma_splice_push(s: Seq<u8>, c: int, w: Seq<u8>, v: u8)
    requires
        0 <= c,
        c + w.len() < s.len(),
    ensures
        splice(s, c, w).update(c + w.len(), v) == splice(s, c, w.push(v)),
{
    assert(splice(s, c, w).update(c + w.len(), v) =~= splice(s, c, w.push(v)));
}

/// Writing `w2` just past a spliced range `w1` splices `w1 + w2`.
pub proof fn lemma_splice_concat(s: Seq<u8>, c: int, w1: Seq<u8>, w2: Seq<u8>)
    requires
        0 <= c,
    ensures
        splice(splice(s, c, w1), c + w1.len(), w2) == splice(s, c, w1 + w2),
{
    assert(splice(splice(s, c, w1), c + w1.len(), w2) =~= splice(s, c, w1 + w2));
}

/// Every label in the sequence has at least one byte.
pub open spec fn labels_nonempty(labels: Seq<Seq<u8>>) -> bool {
    forall|i: int| 0 <= i < labels.len() ==> #[trigger] labels[i].len() > 0
}

/// Bytes at offset `pos` of `b` that hold `w`.
pub open spec fn holds_at(b: Seq<u8>, pos: int, w: Seq<u8>) -> bool {
    0 <= pos && pos + w.len() <= b.len() && b.subrange(pos, pos + w.len()) == w
}

/// The two parts of bytes held at an offset are held where each one starts.
pub proof fn lemma_holds_split(b: Seq<u8>, c: int, w1: Seq<u8>, w2: Seq<u8>)
    requires
        holds_at(b, c, w1 + w2),
    ensures
        holds_at(b, c, w1),
        holds_at(b, c + w1.len(), w2),
{
    assert forall|k: int| 0 <= k < w1.len() implies b.subrange(c, c + w1.len())[k] == w1[k] by {
        assert(b.subrange(c, c + w1.len() + w2.len())[k] == (w1 + w2)[k]);
    }
    assert forall|k: int| 0 <= k < w2.len() implies b.subrange(
        c + w1.len(),
        c + w1.len() + w2.len(),
    )[k] == w2[k] by {
        assert(b.subrange(c, c + w1.len() + w2.len())[w1.len() + k] == (w1 + w2)[w1.len() + k]);
    }
    assert(b.subrange(c, c + w1.len()) =~= w1);
    assert(b.subrange(c + w1.len(), c + w1.len() + w2.len()) =~= w2);
}

/// A 16-bit value held at an offset reads back as itself.
pub proof fn lemma_u16_at(b: Seq<u8>, p: int, v: u16)
    requires
        holds_at(b, p, u16_bytes(v)),
    ensures
        be16(b[p], b[p + 1]) == v,
{
    lemma_u16_bytes(v);
    assert(b[p] == b.subrange(p, p + 2)[0]);
    assert(b[p + 1] == b.subrange(p, p + 2)[1]);
}

/// A 32-bit value held at an offset reads back as itself.
pub proof fn lemma_u32_at(b: Seq<u8>, p: int, v: u32)
    requires
        holds_at(b, p, u32_bytes(v)),
    ensures
        be32(b[p], b[p + 1], b[p + 2], b[p + 3]) == v,
{
    lemma_u32_bytes(v);
    assert(b[p] == b.subrange(p, p + 4)[0]);
    assert(b[p + 1] == b.subrange(p, p + 4)[1]);
    assert(b[p + 2] == b.subrange(p, p + 4)[2]);
    assert(b[p + 3] == b.subrange(p, p + 4)[3]);
}

/// The wire form of a name ends within the buffer and is never empty.
pub proof fn lemma_name_wire_fits(labels: Seq<Seq<u8>>, pos: int)
    requires
        name_wire(labels, pos) is Ok,
    ensures
        pos + name_wire(labels, pos)->Ok_0.len() <= 512,
        name_wire(labels, pos)->Ok_0.len() >= 1,
    decreases labels.len(),
{
    if labels.len() > 0 {
        lemma_name_wire_fits(labels.drop_first(), pos + 1 + labels[0].len());
    }
}

/// A name written without compression reads back as the labels it was
/// written from, and reading resumes just past it; this holds however many
/// pointers were followed to reach it.
pub proof fn lemma_labels_round_trip(b: Seq<u8>, pos: int, labels: Seq<Seq<u8>>, jumps: int)
    requires
        b.len() == 512,
        0 <= jumps <= 5,
        labels_nonempty(labels),
        name_wire(labels, pos) is Ok,
        holds_at(b, pos, name_wire(labels, pos)->Ok_0),
    ensures
        name_labels(b, pos, jumps) == Ok::<Seq<Seq<u8>>, DnsError>(labels),
        name_end(b, pos) == pos + name_wire(labels, pos)->Ok_0.len(),
    decreases labels.len(),
{
    let w = name_wire(labels, pos)->Ok_0;
    lemma_name_wire_fits(labels, pos);
    assert(b[pos] == w[0]) by {
        assert(b.subrange(pos, pos + w.len())[0] == b[pos]);
    }
    if labels.len() == 0 {
        assert(w == seq![0u8]);
        assert(labels =~= Seq::<Seq<u8>>::empty());
    } else {
        let l = labels[0];
        let len = l.len();
        let next = pos + 1 + len;
        let rest = labels.drop_first();
        let w2 = name_wire(rest, next)->Ok_0;
        lemma_name_wire_fits(rest, next);
        assert(w == seq![len as u8] + l + w2);
        assert(labels[0].len() > 0);
        assert(b.subrange(pos + 1, next) =~= l) by {
            assert forall|k: int| 0 <= k < len implies b.subrange(pos + 1, next)[k] == l[k] by {
                assert(b.subrange(pos, pos + w.len())[1 + k] == w[1 + k]);
            }
        }
        assert(holds_at(b, next, w2)) by {
            assert forall|k: int| 0 <= k < w2.len() implies b.subrange(next, next + w2.len())[k]
                == w2[k] by {
                assert(b.subrange(pos, pos + w.len())[1 + len + k] == w[1 + len + k]);
            }
            assert(b.subrange(next, next + w2.len()) =~= w2);
        }
        assert forall|i: int| 0 <= i < rest.len() implies #[trigger] rest[i].len() > 0 by {
            assert(rest[i] == labels[i + 1]);
        }
        lemma_labels_round_trip(b, next, rest, jumps);
        assert(w[0] == len as u8);
        assert(b[pos] as int == len);
        assert(next < 512);
        assert(name_labels(b, pos, jumps) == prepend_labels(seq![l], name_labels(b, next, jumps)));
        assert(seq![l] + rest =~= labels);
    }
}

/// Writing a name whose labels are all non-empty and reading it back at the
/// same offset gives the labels it was split into, so its text is their
/// lower-cased dotted form; reading resumes just past what was written.
pub proof fn lemma_name_round_trip(s: Seq<u8>, pos: int, name: Seq<u8>)
    requires
        s.len() == 512,
        0 <= pos,
        labels_nonempty(name_split(name)),
        name_wire(name_split(name), pos) is Ok,
    ensures
        ({
            let w = name_wire(name_split(name), pos)->Ok_0;
            let b = splice(s, pos, w);
            &&& name_labels(b, pos, 0) == Ok::<Seq<Seq<u8>>, DnsError>(name_split(name))
            &&& name_end(b, pos) == pos + w.len()
        }),
{
    let labels = name_split(name);
    let w = name_wire(labels, pos)->Ok_0;
    lemma_name_wire_fits(labels, pos);
    let b = splice(s, pos, w);
    assert(b.subrange(pos, pos + w.len()) =~= w);
    lemma_labels_round_trip(b, pos, labels, 0);
}

/// The name at `t` is made of literal labels only, with no pointer.
pub open spec fn literal_name(b: Seq<u8>, t: int) -> bool
    decreases 512 - t,
{
    if t < 0 || t >= 512 || b[t] >= 0xc0 {
        false
    } else if b[t] == 0 {
        true
    } else if t + 1 + b[t] >= 512 {
        false
    } else {
        literal_name(b, t + 1 + b[t])
    }
}

/// A name of literal labels reads the same whatever number of pointers was
/// followed to reach it.
pub proof fn lemma_literal_name_jumps(b: Seq<u8>, t: int, jumps: int)
    requires
        literal_name(b, t),
        0 <= jumps <= 5,
    ensures
        name_labels(b, t, jumps) == name_labels(b, t, 0),
    decreases 512 - t,
{
    if b[t] != 0 {
        lemma_literal_name_jumps(b, t + 1 + b[t], jumps);
    }
}

/// A compression pointer to a name of literal labels reads as the labels at
/// its target, wherever the pointer stands; reading resumes just past the
/// pointer.
pub proof fn lemma_pointer_to_literal(b: Seq<u8>, pos: int)
    requires
        0 <= pos < 511,
        b[pos] >= 0xc0,
        literal_name(b, pointer_target(b[pos], b[pos + 1]) as int),
    ensures
        name_labels(b, pos, 0) == name_labels(b, pointer_target(b[pos], b[pos + 1]) as int, 0),
        name_end(b, pos) == pos + 2,
{
    lemma_literal_name_jumps(b, pointer_target(b[pos], b[pos + 1]) as int, 1);
}

/// A fixed-capacity message buffer with a read/write cursor.
#[derive(Debug)]
pub struct PacketBuffer {
    pub buf: [u8; 512],
    pos: usize,
}

impl Default for PacketBuffer {
    fn default() -> (r: Self)
        ensures
            r.bytes() == Seq::new(512, |i: int| 0u8),
            r.cursor() == 0,
    {
        let r = PacketBuffer { buf: [0u8; 512], pos: 0 };
        assert(r.bytes() =~= Seq::new(512, |i: int| 0u8));
        r
    }
}

impl PacketBuffer {
    /// The cursor position.
    pub closed spec fn cursor(&self) -> usize {
        self.pos
    }

    /// The 512 bytes of the buffer.
    pub closed spec fn bytes(&self) -> Seq<u8> {
        self.buf@
    }

    /// The buffer always holds exactly 512 bytes.
    pub broadcast proof fn lemma_bytes_len(&self)
        ensures
            #[trigger] self.bytes().len() == 512,
    {
    }

    /// A buffer over the given bytes, with the cursor at the start.
    pub fn from_bytes(buf: [u8; 512]) -> (r: Self)
        ensures
            r.bytes() == buf@,
            r.cursor() == 0,
    {
        PacketBuffer { buf, pos: 0 }
    }

    pub fn pos(&self) -> (r: usize)
        ensures
            r == self.cursor(),
    {
        self.pos
    }

    /// Moves the cursor `offset` bytes on; the next access checks the bounds.
    pub fn step(&mut self, offset: usize) -> (r: Result<(), DnsError>)
        requires
            old(self).cursor() + offset <= usize::MAX,
        ensures
            r is Ok,
            final(self).bytes() == old(self).bytes(),
            final(self).cursor() == old(self).cursor() + offset,
    {
        self.pos = self.pos + offset;
        Ok(())
    }

    /// Sets the cursor; the next access checks the bounds.
    pub fn seek(&mut self, offset: usize) -> (r: Result<(), DnsError>)
        ensures
            r is Ok,
            final(self).bytes() == old(self).bytes(),
            final(self).cursor() == offset,
    {
        self.pos = offset;
        Ok(())
    }

    /// Reads the byte at the cursor and moves past it.
    pub fn read(&mut self) -> (r: Result<u8, DnsError>)
        ensures
            final(self).bytes() == old(self).bytes(),
            old(self).cursor() < 512 ==> r == Ok::<u8, DnsError>(old(self).bytes()[old(self).cursor() as int])
                && final(self).cursor() == old(self).cursor() + 1,
            old(self).cursor() >= 512 ==> r == Err::<u8, DnsError>(DnsError::OutOfBounds)
                && final(self).cursor() == old(self).cursor(),
    {
        if self.pos >= BUF_SIZE {
            return Err(DnsError::OutOfBounds);
        }
        let res = self.buf[self.pos];
        self.pos = self.pos + 1;
        Ok(res)
    }

    /// The byte at `offset`; the cursor stays.
    pub fn get(&self, offset: usize) -> (r: Result<u8, DnsError>)
        ensures
            offset < 512 ==> r == Ok::<u8, DnsError>(self.bytes()[offset as int]),
            offset >= 512 ==> r == Err::<u8, DnsError>(DnsError::OutOfBounds),
    {
        if offset >= BUF_SIZE {
            return Err(DnsError::OutOfBounds);
        }
        Ok(self.buf[offset])
    }

    /// Writes the byte at `offset`; the cursor stays.
    pub fn set(&mut self, offset: usize, val: u8) -> (r: Result<(), DnsError>)
        ensures
            final(self).cursor() == old(self).cursor(),
            offset < 512 ==> r is Ok && final(self).bytes() == old(self).bytes().update(offset as int, val),
            offset >= 512 ==> r == Err::<(), DnsError>(DnsError::OutOfBounds)
                && final(self).bytes() == old(self).bytes(),
    {
        if offset >= BUF_SIZE {
            return Err(DnsError::OutOfBounds);
        }
        self.buf[offset] = val;
        Ok(())
    }

    /// Writes `val` big-endian at `offset` and `offset + 1`; the cursor stays.
    pub fn set_u16(&mut self, offset: usize, val: u16) -> (r: Result<(), DnsError>)
        ensures
            final(self).cursor() == old(self).cursor(),
            offset < 511 ==> r is Ok && final(self).bytes() == splice(
                old(self).bytes(),
                offset as int,
                u16_bytes(val),
            ),
            offset >= 511 ==> r == Err::<(), DnsError>(DnsError::OutOfBounds)
                && final(self).bytes() == old(self).bytes(),
    {
        broadcast use PacketBuffer::lemma_bytes_len;
        if offset >= BUF_SIZE - 1 {
            return Err(DnsError::OutOfBounds);
        }
        let _ = self.set(offset, (val >> 8) as u8);
        let _ = self.set(offset + 1, (val & 0xff) as u8);
        assert(self.bytes() =~= splice(old(self).bytes(), offset as int, u16_bytes(val)));
        Ok(())
    }

    /// The `len` bytes from `start` on. A range whose end reaches the last byte
    /// is refused as well.
    pub fn get_range(&mut self, start: usize, len: usize) -> (r: Result<&[u8], DnsError>)
        ensures
            *final(self) == *old(self),
            start + len < 512 ==> r is Ok && r->Ok_0@ == old(self).bytes().subrange(
                start as int,
                start + len,
            ),
            start + len >= 512 ==> r == Err::<&[u8], DnsError>(DnsError::OutOfBounds),
    {
        if start >= BUF_SIZE || len >= BUF_SIZE - start {
            return Err(DnsError::OutOfBounds);
        }
        Ok(vstd::slice::slice_subrange(self.buf.as_slice(), start, start + len))
    }

    /// Reads a big-endian 16-bit value at the cursor and moves past it.
    pub fn read_u16(&mut self) -> (r: Result<u16, DnsError>)
        ensures
            final(self).bytes() == old(self).bytes(),
            ({
                let (b, c) = (old(self).bytes(), old(self).cursor() as int);
                &&& c + 2 <= 512 ==> r == Ok::<u16, DnsError>(be16(b[c], b[c + 1]))
                    && final(self).cursor() == c + 2
                &&& c + 2 > 512 ==> r == Err::<u16, DnsError>(DnsError::OutOfBounds)
            }),
    {
        let hi = self.read()?;
        let lo = self.read()?;
        Ok(((hi as u16) << 8) | lo as u16)
    }

    /// Reads a big-endian 32-bit value at the cursor and moves past it.
    pub fn read_u32(&mut self) -> (r: Result<u32, DnsError>)
        ensures
            final(self).bytes() == old(self).bytes(),
            ({
                let (b, c) = (old(self).bytes(), old(self).cursor() as int);
                &&& c + 4 <= 512 ==> r == Ok::<u32, DnsError>(
                    be32(b[c], b[c + 1], b[c + 2], b[c + 3]),
                ) && final(self).cursor() == c + 4
                &&& c + 4 > 512 ==> r == Err::<u32, DnsError>(DnsError::OutOfBounds)
            }),
    {
        let b0 = self.read()?;
        let b1 = self.read()?;
        let b2 = self.read()?;
        let b3 = self.read()?;
        Ok(((b0 as u32) << 24) | ((b1 as u32) << 16) | ((b2 as u32) << 8) | b3 as u32)
    }

    /// Writes a byte at the cursor and moves past it.
    pub fn write(&mut self, val: u8) -> (r: Result<(), DnsError>)
        ensures
            old(self).cursor() < 512 ==> r is Ok && final(self).bytes() == old(self).bytes().update(
                old(self).cursor() as int,
                val,
            ) && final(self).cursor() == old(self).cursor() + 1,
            old(self).cursor() >= 512 ==> r == Err::<(), DnsError>(DnsError::OutOfBounds)
                && final(self).cursor() == old(self).cursor() && final(self).bytes() == old(
                self,
            ).bytes(),
    {
        if self.pos >= BUF_SIZE {
            return Err(DnsError::OutOfBounds);
        }
        self.buf[self.pos] = val;
        self.pos = self.pos + 1;
        Ok(())
    }

    /// Writes a big-endian 16-bit value at the cursor and moves past it.
    pub fn write_u16(&mut self, val: u16) -> (r: Result<(), DnsError>)
        ensures
            ({
                let (b, c) = (old(self).bytes(), old(self).cursor() as int);
                &&& c + 2 <= 512 ==> r is Ok && final(self).bytes() == splice(b, c, u16_bytes(val))
                    && final(self).cursor() == c + 2
                &&& c + 2 > 512 ==> r == Err::<(), DnsError>(DnsError::OutOfBounds)
            }),
    {
        broadcast use PacketBuffer::lemma_bytes_len;
        self.write((val >> 8) as u8)?;
        self.write((val & 0xff) as u8)?;
        assert(self.bytes() =~= splice(old(self).bytes(), old(self).cursor() as int, u16_bytes(val)));
        Ok(())
    }

    /// Writes a big-endian 32-bit value at the cursor and moves past it.
    pub fn write_u32(&mut self, val: u32) -> (r: Result<(), DnsError>)
        ensures
            ({
                let (b, c) = (old(self).bytes(), old(self).cursor() as int);
                &&& c + 4 <= 512 ==> r is Ok && final(self).bytes() == splice(b, c, u32_bytes(val))
                    && final(self).cursor() == c + 4
                &&& c + 4 > 512 ==> r == Err::<(), DnsError>(DnsError::OutOfBounds)
            }),
    {
        broadcast use PacketBuffer::lemma_bytes_len;
        self.write(((val >> 24) & 0xff) as u8)?;
        self.write(((val >> 16) & 0xff) as u8)?;
        self.write(((val >> 8) & 0xff) as u8)?;
        self.write((val & 0xff) as u8)?;
        assert(self.bytes() =~= splice(old(self).bytes(), old(self).cursor() as int, u32_bytes(val)));
        Ok(())
    }

    /// Reads the name at the cursor, following compression pointers, and
    /// appends its lower-cased dotted text to `outstr`. The cursor moves past
    /// the name as it stands at the cursor. On an error the cursor stays,
    /// unless a first pointer was met: then it stands just past that pointer.
    pub fn read_qname(&mut self, outstr: &mut String) -> (r: Result<(), DnsError>)
        ensures
            final(self).bytes() == old(self).bytes(),
            match name_labels(old(self).bytes(), old(self).cursor() as int, 0) {
                Ok(labels) => r is Ok && final(outstr)@ == old(outstr)@ + name_text(labels)
                    && final(self).cursor() == name_end(old(self).bytes(), old(self).cursor() as int),
                Err(e) => r == Err::<(), DnsError>(e) && final(self).cursor() == if reaches_pointer(
                    old(self).bytes(),
                    old(self).cursor() as int,
                ) {
                    name_end(old(self).bytes(), old(self).cursor() as int)
                } else {
                    old(self).cursor() as int
                },
            },
    {
        broadcast use PacketBuffer::lemma_bytes_len;
        let ghost b = self.bytes();
        let ghost start = self.pos as int;
        let ghost mut acc: Seq<Seq<u8>> = Seq::empty();
        let mut pos = self.pos();
        let mut jumped = false;
        let mut jumps: u8 = 0;
        let mut first = true;
        proof {
            reveal_strlit(".");
            assert(acc + name_labels(b, start, 0)->Ok_0 =~= name_labels(b, start, 0)->Ok_0);
        }
        loop
            invariant
                self.bytes() == b,
                start == old(self).cursor(),
                b == old(self).bytes(),
                0 <= jumps <= 6,
                name_labels(b, start, 0) == prepend_labels(acc, name_labels(b, pos as int, jumps as int)),
                outstr@ == old(outstr)@ + name_text(acc),
                first == (acc.len() == 0),
                !jumped ==> jumps == 0 && name_end(b, start) == name_end(b, pos as int)
                    && self.cursor() == start && reaches_pointer(b, start) == reaches_pointer(
                    b,
                    pos as int,
                ),
                jumped ==> self.cursor() == name_end(b, start) && reaches_pointer(b, start),
            decreases 6 - jumps, 512 - pos,
        {
            if jumps > MAX_JUMPS {
                return Err(DnsError::JumpsExceed);
            }
            let len = self.get(pos)?;
            assert(((len & 0xc0u8) == 0xc0u8) == (len >= 0xc0u8)) by (bit_vector);
            if (len & 0xc0) == 0xc0 {
                if !jumped {
                    self.seek(pos + 2)?;
                }
                let byte2 = self.get(pos + 1)? as u16;
                let offset = ((len as u16 ^ 0xc0) << 8) | byte2;
                pos = offset as usize;
                jumped = true;
                jumps = jumps + 1;
            } else {
                pos = pos + 1;
                if len == 0 {
                    if !jumped {
                        self.seek(pos)?;
                    }
                    proof {
                        assert(acc + Seq::<Seq<u8>>::empty() =~= acc);
                    }
                    return Ok(());
                }
                if !first {
                    outstr.append(".");
                    proof {
                        reveal_strlit(".");
                        assert(outstr@ =~= old(outstr)@ + name_text(acc) + seq!['.']);
                    }
                }
                let label = self.get_range(pos, len as usize)?;
                let raw = decode_lossy(label);
                let text = lowercase(raw.as_str());
                outstr.append(text.as_str());
                let ghost lab = b.subrange(pos as int, pos + len);
                proof {
                    let next = name_labels(b, pos + len, jumps as int);
                    match next {
                        Ok(rest) => {
                            assert(acc + (seq![lab] + rest) =~= acc.push(lab) + rest);
                        },
                        Err(e) => {},
                    }
                    assert(acc.push(lab).drop_last() =~= acc);
                    assert(label@ == lab);
                    assert(text@ == label_text(lab));
                    if acc.len() == 0 {
                        assert(outstr@ =~= old(outstr)@ + name_text(acc.push(lab)));
                    } else {
                        assert(name_text(acc.push(lab)) == name_text(acc) + seq!['.'] + label_text(lab));
                        assert(outstr@ =~= old(outstr)@ + name_text(acc.push(lab)));
                    }
                    acc = acc.push(lab);
                }
                first = false;
                pos = pos + len as usize;
            }
        }
    }

    /// Writes `qname` at the cursor without compression: each dot-separated
    /// label as its length and its bytes, then a zero byte.
    #[verifier::rlimit(30)]
    pub fn write_qname(&mut self, qname: &str) -> (r: Result<(), DnsError>)
        ensures
            match name_wire(name_split(qname.spec_bytes()), old(self).cursor() as int) {
                Ok(w) => r is Ok && final(self).bytes() == splice(
                    old(self).bytes(),
                    old(self).cursor() as int,
                    w,
                ) && final(self).cursor() == old(self).cursor() + w.len() && final(self).cursor()
                    <= 512,
                Err(e) => r == Err::<(), DnsError>(e),
            },
            final(self).bytes() == splice(
                old(self).bytes(),
                old(self).cursor() as int,
                name_written(name_split(qname.spec_bytes()), old(self).cursor() as int),
            ),
            final(self).cursor() == old(self).cursor() + name_written(
                name_split(qname.spec_bytes()),
                old(self).cursor() as int,
            ).len(),
            name_wire(name_split(qname.spec_bytes()), old(self).cursor() as int) == Err::<
                Seq<u8>,
                DnsError,
            >(DnsError::OutOfBounds) && old(self).cursor() <= 512 ==> final(self).cursor() == 512,
    {
        broadcast use PacketBuffer::lemma_bytes_len;
        let bytes = qname.as_bytes();
        let n = bytes.len();
        let ghost bs = bytes@;
        let ghost c0 = self.cursor() as int;
        let ghost mut written: Seq<u8> = Seq::empty();
        let mut start: usize = 0;
        proof {
            let all = name_wire(name_split(bs), c0);
            if all is Ok {
                assert(written + all->Ok_0 =~= all->Ok_0);
            }
            if all == Err::<Seq<u8>, DnsError>(DnsError::OutOfBounds) && c0 <= 512 {
                lemma_name_written_to_end(name_split(bs), c0);
            }
            assert(written + name_written(name_split(bs), c0) =~= name_written(name_split(bs), c0));
            assert(splice(old(self).bytes(), c0, written) =~= old(self).bytes());
        }
        loop
            invariant
                n == bs.len(),
                bytes@ == bs,
                bs == qname.spec_bytes(),
                c0 == old(self).cursor(),
                start <= n,
                self.cursor() == c0 + written.len(),
                written.len() > 0 ==> c0 + written.len() <= 512,
                name_wire(name_split(bs), c0) == prepend_bytes(
                    written,
                    name_wire(split_from(bs, start as int, Seq::empty()), self.cursor() as int),
                ),
                self.bytes() == splice(old(self).bytes(), c0, written),
                name_written(name_split(bs), c0) == written + name_written(
                    split_from(bs, start as int, Seq::empty()),
                    self.cursor() as int,
                ),
                name_wire(name_split(bs), c0) == Err::<Seq<u8>, DnsError>(DnsError::OutOfBounds)
                    && c0 <= 512 ==> c0 + name_written(name_split(bs), c0).len() == 512,
            decreases n - start,
        {
            let mut i = start;
            proof {
                assert(bs.subrange(start as int, start as int) =~= Seq::<u8>::empty());
            }
            while i < n && bytes[i] != 46u8
                invariant
                    n == bs.len(),
                    bytes@ == bs,
                    start <= i <= n,
                    split_from(bs, start as int, Seq::empty()) == split_from(
                        bs,
                        i as int,
                        bs.subrange(start as int, i as int),
                    ),
                decreases n - i,
            {
                proof {
                    assert(bs.subrange(start as int, i as int).push(bs[i as int]) =~= bs.subrange(
                        start as int,
                        i + 1,
                    ));
                }
                i = i + 1;
            }
            let len = i - start;
            let ghost lab = bs.subrange(start as int, i as int);
            let ghost rest: Seq<Seq<u8>> = if i == n {
                Seq::empty()
            } else {
                split_from(bs, i + 1, Seq::empty())
            };
            proof {
                assert(split_from(bs, start as int, Seq::empty()) =~= seq![lab] + rest);
                assert((seq![lab] + rest)[0] == lab);
                assert((seq![lab] + rest).drop_first() =~= rest);
            }
            if len > 63 {
                proof {
                    assert(written + Seq::<u8>::empty() =~= written);
                }
                return Err(DnsError::LabelLengthExceed);
            }
            let ghost p0 = self.cursor() as int;
            proof {
                if p0 + 1 + len > 512 {
                    assert(name_wire(seq![lab] + rest, p0) == Err::<Seq<u8>, DnsError>(
                        DnsError::OutOfBounds,
                    ));
                }
            }
            let wl = self.write(len as u8);
            if wl.is_err() {
                proof {
                    assert(written + Seq::<u8>::empty() =~= written);
                }
                return wl;
            }
            proof {
                if written.len() == 0 {
                    assert(splice(old(self).bytes(), c0, written) =~= old(self).bytes());
                }
                lemma_splice_push(old(self).bytes(), c0, written, len as u8);
            }
            let mut k = start;
            while k < i
                invariant
                    n == bs.len(),
                    bytes@ == bs,
                    start <= k <= i <= n,
                    len == i - start,
                    len <= 63,
                    bs == qname.spec_bytes(),
                    c0 == old(self).cursor(),
                    p0 + 1 + len > 512 ==> name_wire(name_split(bs), c0) == Err::<
                        Seq<u8>,
                        DnsError,
                    >(DnsError::OutOfBounds),
                    lab == bs.subrange(start as int, i as int),
                    name_written(name_split(bs), c0) == written + name_written(
                        seq![lab] + rest,
                        p0,
                    ),
                    (seq![lab] + rest)[0] == lab,
                    p0 == c0 + written.len(),
                    self.cursor() == p0 + 1 + (k - start),
                    self.cursor() <= 512,
                    self.bytes() == splice(
                        old(self).bytes(),
                        c0,
                        written + seq![len as u8] + bs.subrange(start as int, k as int),
                    ),
                decreases i - k,
            {
                let ghost w0 = written + seq![len as u8] + bs.subrange(start as int, k as int);
                let wb = self.write(bytes[k]);
                if wb.is_err() {
                    proof {
                        assert(p0 + 1 + (k - start) == 512);
                        assert((seq![len as u8] + lab).take(512 - p0) =~= seq![len as u8]
                            + bs.subrange(start as int, k as int));
                        assert(w0 =~= written + name_written(seq![lab] + rest, p0));
                    }
                    return wb;
                }
                proof {
                    lemma_splice_push(old(self).bytes(), c0, w0, bs[k as int]);
                    assert(w0.push(bs[k as int]) =~= written + seq![len as u8] + bs.subrange(
                        start as int,
                        k + 1,
                    ));
                }
                k = k + 1;
            }
            proof {
                assert(seq![len as u8] + lab == seq![lab.len() as u8] + lab);
                let tail = name_wire(rest, p0 + 1 + len);
                if tail is Ok {
                    assert(written + (seq![len as u8] + lab + tail->Ok_0) =~= (written + seq![len
                        as u8] + lab) + tail->Ok_0);
                }
                assert(written + (seq![len as u8] + lab + name_written(rest, p0 + 1 + len)) =~= (
                written + seq![len as u8] + lab) + name_written(rest, p0 + 1 + len));
                written = written + seq![len as u8] + lab;
            }
            if i == n {
                let ghost w0 = written;
                let wz = self.write(0);
                if wz.is_err() {
                    proof {
                        assert(written + Seq::<u8>::empty() =~= written);
                    }
                    return wz;
                }
                proof {
                    lemma_splice_push(old(self).bytes(), c0, w0, 0u8);
                }
                return Ok(());
            }
            start = i + 1;
        }
    }
}

} // verus!
