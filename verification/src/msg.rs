//! Reading the question out of a DNS message and writing the reply into the
//! same buffer.
use vstd::prelude::*;
use crate::cvec::CVec;
use crate::codes::{OpCode, RCode, QClass, QType};
use crate::{txt_record, CVec63};
use crate::codes::{opcode_text, rcode_text, qtype_text, qclass_text};
use crate::text::{decimal, to_decimal};
use vstd::utf8::{valid_utf8, decode_utf8};
use vstd::string::StringSliceAdditionalSpecFns;

verus! {

/// Size of the fixed message header.
pub const MSG_HEADER_LEN: usize = 12;

/// The shortest query: the header, a one-byte (root) name, QTYPE and QCLASS.
pub const MSG_LEN_MIN: usize = MSG_HEADER_LEN + 1 + 2 + 2;

/// The largest message this library plans for.
pub const MSG_LEN_MAX: usize = 1232;

/// The longest name that a query may carry.
pub const FQDN_LEN_MAX: usize = 253;

/// The longest label of a name.
pub const LABEL_LEN_MAX: usize = 63;

/// Why a message was refused.
#[derive(Debug)]
pub enum MsgError {
    /// The header asks for an operation other than a standard query.
    UnkOpCode(OpCode),
    /// The header says the message was truncated.
    Truncated,
    /// The message is malformed.
    FormErr,
}

/// The question of a query.
pub struct Query {
    pub name: CVec63,
    pub qtype: QType,
    pub qclass: QClass,
}

/// One resource record of an answer; its owner is always the question's name.
pub struct Answer {
    pub qtype: QType,
    pub qclass: QClass,
    pub ttl: u32,
    pub rdata: RData,
}

/// The data of a record: an IPv4 address, an IPv6 address (their octets in
/// network order), or raw bytes.
pub enum RData {
    A([u8; 4]),
    AAAA([u8; 16]),
    Bytes(CVec63),
}

impl RData {
    /// The bytes of the data as they go on the wire.
    pub open spec fn wire(&self) -> Seq<u8> {
        match self {
            RData::A(a) => a@,
            RData::AAAA(a) => a@,
            RData::Bytes(b) => b@,
        }
    }

    /// Well-formed: raw bytes are a well-formed vector.
    pub open spec fn wf(&self) -> bool {
        match self {
            RData::Bytes(b) => b.wf(),
            _ => true,
        }
    }

    /// The length of the data, as its 16-bit length field holds it.
    pub fn len(&self) -> (r: u16)
        requires
            self.wf(),
        ensures
            r == self.wire().len() as u16,
    {
        match self {
            RData::A(_) => 4,
            RData::AAAA(_) => 16,
            RData::Bytes(b) => b.len() as u16,
        }
    }

    /// The data as a slice.
    fn as_slice(&self) -> (r: &[u8])
        requires
            self.wf(),
        ensures
            r@ == self.wire(),
    {
        match self {
            RData::A(a) => a.as_slice(),
            RData::AAAA(a) => a.as_slice(),
            RData::Bytes(b) => b.as_slice(),
        }
    }
}

/// The two top bits that mark a name as a pointer (message compression).
pub const MC_SIG16: u16 = 0b1100_0000_0000_0000;

/// The pointer to the question's name, which always comes just after the
/// header.
pub const MC_QNAME: u16 = MC_SIG16 | 12;

/// The bytes of an answer record, its name a pointer to the question's.
pub open spec fn answer_wire(a: Answer) -> Seq<u8> {
    record_wire(a.qtype.0, a.qclass.0, a.ttl, a.rdata.wire())
}

/// The bytes of a record for the question's name with the given type,
/// class, TTL and data.
pub open spec fn record_wire(qtype: u16, qclass: u16, ttl: u32, data: Seq<u8>) -> Seq<u8> {
    be16(MC_QNAME) + be16(qtype) + be16(qclass) + be32(ttl) + be16(data.len() as u16) + data
}

/// The lines of the TXT record that the server answers with.
pub open spec fn reply_txt_lines() -> Seq<&'static str> {
    seq!["you're (not) welcome", "(not) really."]
}

/// The data of the record that the server answers a question of class IN
/// and type `qtype` with: 127.25.0.1 for A, ::2501 for AAAA, two lines of
/// text for TXT; `None` for any other type.
pub open spec fn reply_data(qtype: u16) -> Option<Seq<u8>> {
    if qtype == 1 {
        Some(seq![127u8, 25, 0, 1])
    } else if qtype == 28 {
        Some(seq![0u8, 0, 0, 0, 0, 0, 0, 0, 0, 0, 0, 0, 0, 0, 0x25, 0x01])
    } else if qtype == 16 {
        Some(txt_record(reply_txt_lines()))
    } else {
        None
    }
}

/// The TTL of the server's records.
pub const REPLY_TTL: u32 = 2501;

/// The record that the server answers `q` with: one of type `q.qtype`, class
/// IN and TTL 2501 carrying `reply_data`, for a question of class IN and type
/// A, AAAA or TXT; `None` (a refusal) for any other question.
pub fn reply(q: &Query) -> (r: Option<Answer>)
    ensures
        r is Some <==> q.qclass.0 == 1 && reply_data(q.qtype.0) is Some,
        r matches Some(a) ==> {
            &&& a.qtype == q.qtype
            &&& a.qclass == QClass(1)
            &&& a.ttl == REPLY_TTL
            &&& a.rdata.wf()
            &&& a.rdata.wire() == reply_data(q.qtype.0)->0
        },
        r matches Some(a) ==> a.ttl == 2501,
        q.qclass.0 == 1 && q.qtype.0 == 1 ==> (r matches Some(a) && a.rdata is A && a.rdata.wire()
            == seq![127u8, 25, 0, 1]),
        q.qclass.0 == 1 && q.qtype.0 == 28 ==> (r matches Some(a) && a.rdata is AAAA
            && a.rdata.wire() == seq![0u8, 0, 0, 0, 0, 0, 0, 0, 0, 0, 0, 0, 0, 0, 0x25, 0x01]),
        q.qclass.0 == 1 && q.qtype.0 == 16 ==> (r matches Some(a) && a.rdata is Bytes
            && a.rdata.wire() == txt_record(seq!["you're (not) welcome", "(not) really."])),
        !(q.qclass.0 == 1 && (q.qtype.0 == 1 || q.qtype.0 == 28 || q.qtype.0 == 16)) ==> r is None,
{
    if q.qclass.0 != 1 {
        return None;
    }
    let rdata = if q.qtype.0 == 1 {
        let a: [u8; 4] = [127, 25, 0, 1];
        assert(a@ =~= seq![127u8, 25, 0, 1]);
        RData::A(a)
    } else if q.qtype.0 == 28 {
        let a: [u8; 16] = [0, 0, 0, 0, 0, 0, 0, 0, 0, 0, 0, 0, 0, 0, 0x25, 0x01];
        assert(a@ =~= seq![0u8, 0, 0, 0, 0, 0, 0, 0, 0, 0, 0, 0, 0, 0, 0x25, 0x01]);
        RData::AAAA(a)
    } else if q.qtype.0 == 16 {
        let lines: [&str; 2] = ["you're (not) welcome", "(not) really."];
        assert(lines@ =~= reply_txt_lines());
        proof {
            lemma_reply_txt_len();
        }
        RData::Bytes(CVec63::txt(&lines))
    } else {
        return None;
    };
    Some(Answer { qtype: q.qtype, qclass: QClass(1), ttl: REPLY_TTL, rdata })
}

/// Law: the server has a record for the types A (127.25.0.1), AAAA (::2501,
/// fourteen zero bytes then 0x25, 0x01) and TXT (the two lines), and for no
/// other type.
pub proof fn lemma_reply_data_values(qtype: u16)
    ensures
        qtype == 1 ==> reply_data(qtype) == Some(seq![127u8, 25, 0, 1]),
        qtype == 28 ==> reply_data(qtype) == Some(
            seq![0u8, 0, 0, 0, 0, 0, 0, 0, 0, 0, 0, 0, 0, 0, 0x25, 0x01],
        ),
        qtype == 16 ==> reply_data(qtype) == Some(
            txt_record(seq!["you're (not) welcome", "(not) really."]),
        ),
        qtype != 1 && qtype != 28 && qtype != 16 ==> reply_data(qtype) is None,
{
}

/// Answers `q` with the server's record for it (see `reply`), or, where there
/// is none, refuses it with NOTIMP.
pub fn handle(msg: &mut Msg, q: &Query)
    requires
        MSG_HEADER_LEN <= old(msg).bytes().len(),
        q.qclass.0 == 1 && reply_data(q.qtype.0) is Some ==> {
            &&& old(msg).question_end() + 12 + reply_data(q.qtype.0)->0.len() <= old(
                msg,
            ).bytes().len()
            &&& old(msg).msg_len() + 12 + reply_data(q.qtype.0)->0.len() <= 0xffff
        },
    ensures
        final(msg).question_end() == old(msg).question_end(),
        q.qclass.0 == 1 && reply_data(q.qtype.0) is Some ==> {
            let d = reply_data(q.qtype.0)->0;
            &&& final(msg).bytes() == splice(
                response_header(old(msg).bytes(), 0, 1, 1, 0, 0),
                old(msg).question_end(),
                record_wire(q.qtype.0, 1, REPLY_TTL, d),
            )
            &&& final(msg).msg_len() == old(msg).msg_len() + 12 + d.len()
        },
        !(q.qclass.0 == 1 && reply_data(q.qtype.0) is Some) ==> {
            &&& final(msg).bytes() == denied(old(msg).bytes(), 4)
            &&& final(msg).msg_len() == old(msg).msg_len()
        },
{
    match reply(q) {
        Some(a) => {
            let ghost aa = a;
            let v = [a];
            assert(v@ =~= seq![aa]);
            assert(v@.drop_last() =~= Seq::<Answer>::empty());
            assert(v@.last() == aa);
            assert(answers_len(Seq::<Answer>::empty()) == 0);
            assert(answers_len(v@) == 12 + aa.rdata.wire().len());
            let ghost h = response_header(old(msg).bytes(), 0, 1, 1, 0, 0);
            assert(write_answers(h, old(msg).question_end(), Seq::<Answer>::empty()) == h);
            msg.answer(&v);
            assert(write_answers(
                response_header(old(msg).bytes(), 0, 1, 1, 0, 0),
                old(msg).question_end(),
                v@,
            ) == splice(
                response_header(old(msg).bytes(), 0, 1, 1, 0, 0),
                old(msg).question_end(),
                answer_wire(aa),
            ));
        },
        None => {
            msg.deny(RCode::NOTIMP());
        },
    }
}

/// The server's TXT record takes 35 bytes.
proof fn lemma_reply_txt_len()
    ensures
        txt_record(reply_txt_lines()).len() == 35,
{
    let l = reply_txt_lines();
    reveal_strlit("you're (not) welcome");
    reveal_strlit("(not) really.");
    assert(vstd::string::is_ascii(l[0]));
    assert(vstd::string::is_ascii(l[1]));
    vstd::string::is_ascii_spec_bytes(l[0]);
    vstd::string::is_ascii_spec_bytes(l[1]);
    assert(l[0]@.len() == 20);
    assert(l[1]@.len() == 13);
    assert(l[0].spec_bytes().len() == 20);
    assert(l[1].spec_bytes().len() == 13);
    let l1 = l.drop_last();
    assert(l1.drop_last() =~= Seq::<&str>::empty());
    assert(l1.last() == l[0]);
    assert(l.last() == l[1]);
    assert(txt_record(Seq::<&str>::empty()) == Seq::<u8>::empty());
    assert(txt_record(l1).len() == 21);
}

/// Whether an answer can be written at `at` in a buffer of `size` bytes.
pub open spec fn answer_fits(a: Answer, at: int, size: int) -> bool {
    &&& a.rdata.wf()
    &&& a.rdata.wire().len() <= 0xffff
    &&& at + 12 + a.rdata.wire().len() <= size
}

/// `b` with each answer of `s` written at `at`, one after the other.
pub open spec fn write_answers(b: Seq<u8>, at: int, s: Seq<Answer>) -> Seq<u8>
    decreases s.len(),
{
    if s.len() == 0 {
        b
    } else {
        splice(write_answers(b, at, s.drop_last()), at, answer_wire(s.last()))
    }
}

/// The number of bytes that the answers `s` take.
pub open spec fn answers_len(s: Seq<Answer>) -> int
    decreases s.len(),
{
    if s.len() == 0 {
        0
    } else {
        answers_len(s.drop_last()) + 12 + s.last().rdata.wire().len()
    }
}

// ---------------------------------------------------------------------------
// Bit fields of a byte. Bit 0 is the lowest.

/// Bit `o` of `b`.
pub open spec fn bit_of(b: u8, o: u8) -> bool {
    (b >> o) & 1u8 == 1u8
}

/// The mask of the `l` lowest bits.
pub open spec fn low_mask(l: u8) -> u8 {
    ((1u8 << l) - 1) as u8
}

/// The `l` bits of `b` that start at bit `o`.
pub open spec fn bits_of(b: u8, o: u8, l: u8) -> u8 {
    (b >> o) & low_mask(l)
}

/// `b` with bit `o` set.
pub open spec fn with_bit(b: u8, o: u8) -> u8 {
    b | (1u8 << o)
}

/// `b` with the `l` bits at `o` cleared and `v` shifted to `o` or-ed in
/// (`v` is not masked).
pub open spec fn with_bits(b: u8, o: u8, l: u8, v: u8) -> u8 {
    (b & !(low_mask(l) << o)) | (v << o)
}

/// Bit `o` of `b`.
pub fn get_bit(b: u8, o: u8) -> (r: bool)
    requires
        o < 8,
    ensures
        r == bit_of(b, o),
{
    (b >> o) & 1 == 1
}

/// The `l` bits of `b` that start at bit `o`.
pub fn get_bits(b: u8, o: u8, l: u8) -> (r: u8)
    requires
        o < 8,
        l < 8,
    ensures
        r == bits_of(b, o, l),
{
    assert(1u8 << l >= 1u8) by (bit_vector)
        requires
            l < 8u8,
    ;
    (b >> o) & ((1 << l) - 1)
}

/// Sets bit `o` of `b`.
pub fn set_bit(b: &mut u8, o: u8)
    requires
        o < 8,
    ensures
        *final(b) == with_bit(*old(b), o),
{
    *b = *b | (1 << o);
}

/// Puts `v` into the `l` bits of `b` that start at bit `o`.
pub fn set_bits(b: &mut u8, o: u8, l: u8, v: u8)
    requires
        o < 8,
        l < 8,
    ensures
        *final(b) == with_bits(*old(b), o, l, v),
{
    assert(1u8 << l >= 1u8) by (bit_vector)
        requires
            l < 8u8,
    ;
    *b = (*b & !(((1 << l) - 1) << o)) | (v << o);
}

// ---------------------------------------------------------------------------
// Big-endian integers in a byte sequence.

/// The big-endian `u16` at `i`.
pub open spec fn u16_at(b: Seq<u8>, i: int) -> u16 {
    (b[i] as int * 256 + b[i + 1] as int) as u16
}

/// The big-endian bytes of `v`.
pub open spec fn be16(v: u16) -> Seq<u8> {
    seq![(v / 256) as u8, (v % 256) as u8]
}

/// The big-endian bytes of `v`.
pub open spec fn be32(v: u32) -> Seq<u8> {
    seq![(v / 0x100_0000) as u8, (v / 0x1_0000 % 256) as u8, (v / 256 % 256) as u8, (v % 256) as u8]
}

/// `b` with `x` written over it from `pos` on.
pub open spec fn splice(b: Seq<u8>, pos: int, x: Seq<u8>) -> Seq<u8> {
    b.take(pos) + x + b.skip(pos + x.len())
}

/// Reads the big-endian `u16` in the first two bytes of `bytes`.
pub fn u16be(bytes: &[u8]) -> (r: u16)
    requires
        bytes@.len() == 2,
    ensures
        r == u16_at(bytes@, 0),
{
    (bytes[0] as u16) * 256 + (bytes[1] as u16)
}

/// Writes `v` big-endian at `i`.
fn put_u16(buf: &mut [u8], i: usize, v: u16)
    requires
        i + 2 <= old(buf)@.len(),
    ensures
        final(buf)@ == splice(old(buf)@, i as int, be16(v)),
{
    buf[i] = (v / 256) as u8;
    buf[i + 1] = (v % 256) as u8;
    assert(final(buf)@ =~= splice(old(buf)@, i as int, be16(v)));
}

/// Writing `x` and then `y` just after it is writing `x + y`.
pub proof fn lemma_splice_concat(b: Seq<u8>, p: int, x: Seq<u8>, y: Seq<u8>)
    requires
        0 <= p,
        p + x.len() + y.len() <= b.len(),
    ensures
        splice(splice(b, p, x), p + x.len(), y) == splice(b, p, x + y),
        splice(b, p, x).len() == b.len(),
{
    assert(splice(splice(b, p, x), p + x.len(), y) =~= splice(b, p, x + y));
}

/// Writes `v` big-endian at `i`.
fn put_u32(buf: &mut [u8], i: usize, v: u32)
    requires
        i + 4 <= old(buf)@.len(),
    ensures
        final(buf)@ == splice(old(buf)@, i as int, be32(v)),
{
    buf[i] = (v / 0x100_0000) as u8;
    buf[i + 1] = (v / 0x1_0000 % 256) as u8;
    buf[i + 2] = (v / 256 % 256) as u8;
    buf[i + 3] = (v % 256) as u8;
    assert(final(buf)@ =~= splice(old(buf)@, i as int, be32(v)));
}

/// Copies `src` into `buf` at `pos`.
fn put_bytes(buf: &mut [u8], pos: usize, src: &[u8])
    requires
        pos + src@.len() <= old(buf)@.len(),
    ensures
        final(buf)@ == splice(old(buf)@, pos as int, src@),
{
    let n = src.len();
    let size = buf.len();
    let mut i: usize = 0;
    while i < n
        invariant
            n == src@.len(),
            i <= n,
            size == old(buf)@.len(),
            pos + n <= size,
            buf@.len() == old(buf)@.len(),
            buf@ == splice(old(buf)@, pos as int, src@.take(i as int)),
        decreases n - i,
    {
        buf[pos + i] = src[i];
        i = i + 1;
        assert(buf@ =~= splice(old(buf)@, pos as int, src@.take(i as int)));
    }
    assert(src@.take(n as int) =~= src@);
}

/// Whether every byte of `s` is ASCII.
pub open spec fn ascii_bytes(s: Seq<u8>) -> bool {
    forall|i: int| 0 <= i < s.len() ==> #[trigger] s[i] < 128
}

/// Law: a byte sequence counts as ASCII exactly when each of its bytes is
/// below 128; no other byte is refused.
pub proof fn lemma_ascii_bytes_below_128(s: Seq<u8>)
    ensures
        ascii_bytes(s) <==> forall|i: int| 0 <= i < s.len() ==> s[i] < 128,
{
}

/// Whether every byte of `s` is ASCII.
fn is_ascii(s: &[u8]) -> (r: bool)
    ensures
        r == ascii_bytes(s@),
{
    let mut i: usize = 0;
    while i < s.len()
        invariant
            i <= s@.len(),
            forall|j: int| 0 <= j < i ==> #[trigger] s@[j] < 128,
        decreases s@.len() - i,
    {
        if s[i] >= 128 {
            return false;
        }
        i = i + 1;
    }
    true
}

// ---------------------------------------------------------------------------
// The header.

/// The opcode field of a header.
pub open spec fn opcode_of(b: Seq<u8>) -> u8 {
    bits_of(b[2], 3, 4)
}

/// The response code field of a header.
pub open spec fn rcode_of(b: Seq<u8>) -> u8 {
    bits_of(b[3], 0, 4)
}

// ---------------------------------------------------------------------------
// The question.

/// The name whose labels start at `offset` (where the length byte is not 0),
/// read up to the zero length that ends it, with the labels joined by `.`
/// and appended to `acc`; and the offset just past that zero. `None` where a
/// label, or the byte after it, lies at or past `len`.
pub open spec fn name_from(b: Seq<u8>, len: int, offset: int, acc: Seq<u8>) -> Option<(Seq<u8>, int)>
    decreases len - offset,
{
    let next = offset + 1 + b[offset] as int;
    if offset < 0 || next + 1 > len {
        None
    } else {
        let name = acc + b.subrange(offset + 1, next);
        if b[next] == 0 {
            Some((name, next + 1))
        } else {
            name_from(b, len, next, name.push(46u8))
        }
    }
}

/// The name of the question of the `len`-byte message `b` (labels joined by
/// `.`, empty for the root) and the offset just past it; `None` where a label
/// runs past `len`.
pub open spec fn question_name(b: Seq<u8>, len: int) -> Option<(Seq<u8>, int)> {
    if b[12] == 0 {
        Some((Seq::<u8>::empty(), 13))
    } else {
        name_from(b, len, 12, Seq::<u8>::empty())
    }
}

/// Whether every byte that reading the labels from `offset` on looks at (each
/// label, and the length byte after it) lies in `b`; reading stops at the
/// first label that runs past `len`, or at a zero length.
pub open spec fn labels_in_buffer(b: Seq<u8>, len: int, offset: int) -> bool
    decreases len - offset,
{
    let next = offset + 1 + b[offset] as int;
    if offset < 0 || next + 1 > len {
        true
    } else {
        next < b.len() && (b[next] == 0 || labels_in_buffer(b, len, next))
    }
}

/// Whether every byte that reading the question of the `len`-byte message
/// `b` looks at lies in `b`: the first length byte, the labels, and QTYPE
/// and QCLASS where the name is ASCII and they lie below `len`.
pub open spec fn question_in_buffer(b: Seq<u8>, len: int) -> bool {
    &&& 12 < b.len()
    &&& b[12] != 0 ==> labels_in_buffer(b, len, 12)
    &&& match question_name(b, len) {
        Some((name, off)) => ascii_bytes(name) && off + 4 <= len ==> off + 4 <= b.len(),
        None => true,
    }
}

/// A message that lies within its buffer has its question in the buffer.
pub proof fn lemma_question_in_buffer(b: Seq<u8>, len: int)
    requires
        12 < b.len(),
        len <= b.len(),
    ensures
        question_in_buffer(b, len),
{
    if b[12] != 0 {
        lemma_labels_in_buffer(b, len, 12);
    }
}

/// Labels read below a length within the buffer lie in the buffer.
proof fn lemma_labels_in_buffer(b: Seq<u8>, len: int, offset: int)
    requires
        len <= b.len(),
    ensures
        labels_in_buffer(b, len, offset),
    decreases len - offset,
{
    let next = offset + 1 + b[offset] as int;
    if !(offset < 0 || next + 1 > len) && b[next] != 0 {
        lemma_labels_in_buffer(b, len, next);
    }
}

/// The question of the `len`-byte message `b`: its name (labels joined by
/// `.`), QTYPE, QCLASS and the offset just past them; `None` where it is
/// malformed or its name is not ASCII.
pub open spec fn question(b: Seq<u8>, len: int) -> Option<(Seq<u8>, u16, u16, int)> {
    match question_name(b, len) {
        None => None,
        Some((name, off)) => if !ascii_bytes(name) || off + 4 > len {
            None
        } else {
            Some((name, u16_at(b, off), u16_at(b, off + 2), off + 4))
        },
    }
}

/// `b` marked as a response (QR set).
pub open spec fn with_response(b: Seq<u8>) -> Seq<u8> {
    b.update(2, with_bit(b[2], 7))
}

/// `b` with the response code field set to `c`.
pub open spec fn with_rcode(b: Seq<u8>, c: u8) -> Seq<u8> {
    b.update(3, with_bits(b[3], 0, 4, c))
}

/// `b` marked as a response, with RA set where RD is.
pub open spec fn with_response_ra(b: Seq<u8>) -> Seq<u8> {
    let r = with_response(b);
    if bit_of(r[2], 0) {
        r.update(3, with_bit(r[3], 7))
    } else {
        r
    }
}

/// `b` refused with the response code `c`.
pub open spec fn denied(b: Seq<u8>, c: u8) -> Seq<u8> {
    with_rcode(with_response(b), c)
}

/// The header of a response: QR, RA as RD, the response code and the four
/// counts.
pub open spec fn response_header(b: Seq<u8>, c: u8, qd: u16, an: u16, ns: u16, ar: u16) -> Seq<
    u8,
> {
    splice(
        splice(
            splice(splice(with_rcode(with_response_ra(b), c), 4, be16(qd)), 6, be16(an)),
            8,
            be16(ns),
        ),
        10,
        be16(ar),
    )
}

// ---------------------------------------------------------------------------
// Building a query.

/// The labels of `name`: its bytes split at each `.` (so `k` dots give
/// `k + 1` labels, some possibly empty).
pub open spec fn split_dots(name: Seq<u8>) -> Seq<Seq<u8>>
    decreases name.len(),
{
    if name.len() == 0 {
        seq![Seq::<u8>::empty()]
    } else {
        let p = split_dots(name.drop_last());
        if name.last() == 46u8 {
            p.push(Seq::<u8>::empty())
        } else {
            p.update(p.len() - 1, p.last().push(name.last()))
        }
    }
}

/// Each label, preceded by its length byte.
pub open spec fn encode_labels(ls: Seq<Seq<u8>>) -> Seq<u8>
    decreases ls.len(),
{
    if ls.len() == 0 {
        Seq::<u8>::empty()
    } else {
        encode_labels(ls.drop_last()) + seq![ls.last().len() as u8] + ls.last()
    }
}

/// Whether no label is longer than the limit.
pub open spec fn labels_short(ls: Seq<Seq<u8>>) -> bool {
    forall|i: int| 0 <= i < ls.len() ==> (#[trigger] ls[i]).len() <= LABEL_LEN_MAX
}

/// The question of a query for `name` as it goes on the wire after the
/// header: the labels, the root's zero, QTYPE and QCLASS.
pub open spec fn query_wire(name: Seq<u8>, qtype: u16, qclass: u16) -> Seq<u8> {
    encode_labels(split_dots(name)) + seq![0u8] + be16(qtype) + be16(qclass)
}

/// The header that a query is built on: `b` with the ID, RD set and one
/// question.
pub open spec fn query_header(b: Seq<u8>, id: u16) -> Seq<u8> {
    let b1 = splice(b, 0, be16(id));
    splice(b1.update(2, with_bit(b1[2], 0)), 4, be16(1))
}

/// `split_dots` has at least one label.
pub proof fn lemma_split_dots_nonempty(name: Seq<u8>)
    ensures
        split_dots(name).len() >= 1,
    decreases name.len(),
{
    if name.len() > 0 {
        lemma_split_dots_nonempty(name.drop_last());
    }
}

/// The labels of `name` take one byte more than `name` once encoded: each
/// dot becomes a length byte, and one more goes before the first label.
pub proof fn lemma_encode_split_len(name: Seq<u8>)
    ensures
        encode_labels(split_dots(name)).len() == name.len() + 1,
    decreases name.len(),
{
    if name.len() > 0 {
        let p = split_dots(name.drop_last());
        lemma_encode_split_len(name.drop_last());
        lemma_split_dots_nonempty(name.drop_last());
        if name.last() != 46u8 {
            let q = p.update(p.len() - 1, p.last().push(name.last()));
            assert(split_dots(name) == q);
            assert(q.drop_last() =~= p.drop_last());
            assert(q.last() == p.last().push(name.last()));
            assert(encode_labels(q) == encode_labels(q.drop_last()) + seq![q.last().len() as u8]
                + q.last());
            assert(encode_labels(p) == encode_labels(p.drop_last()) + seq![p.last().len() as u8]
                + p.last());
        } else {
            assert(split_dots(name) == p.push(Seq::<u8>::empty()));
            lemma_encode_push(p, Seq::<u8>::empty());
        }
    } else {
        let e = Seq::<u8>::empty();
        assert(seq![e] =~= Seq::<Seq<u8>>::empty().push(e));
        lemma_encode_push(Seq::<Seq<u8>>::empty(), e);
        assert(encode_labels(Seq::<Seq<u8>>::empty()) == e);
    }
}

/// Appending a label to the list appends its encoding.
proof fn lemma_encode_push(ls: Seq<Seq<u8>>, l: Seq<u8>)
    ensures
        encode_labels(ls.push(l)) == encode_labels(ls) + seq![l.len() as u8] + l,
{
    assert(ls.push(l).drop_last() =~= ls);
}

/// The answers of a prefix take no more than all of them.
proof fn lemma_answers_len_prefix(s: Seq<Answer>, k: int)
    requires
        0 <= k <= s.len(),
    ensures
        answers_len(s.take(k)) <= answers_len(s),
    decreases s.len(),
{
    if k < s.len() {
        assert(s.drop_last().take(k) =~= s.take(k));
        lemma_answers_len_prefix(s.drop_last(), k);
    } else {
        assert(s.take(k) =~= s);
    }
}

/// The header flags, for display: the byte, the bit in it, the name.
pub open spec fn flag_table() -> Seq<(u8, u8, &'static str)> {
    seq![
        (2u8, 7u8, "qr"),
        (2u8, 2u8, "aa"),
        (2u8, 1u8, "tc"),
        (2u8, 0u8, "rd"),
        (3u8, 7u8, "ra"),
        (3u8, 6u8, "z"),
        (3u8, 5u8, "ad"),
        (3u8, 4u8, "cd"),
    ]
}

/// The header flags, for display: the byte, the bit in it (bit 0 the
/// lowest), the name. QR and the opcode fill byte 2 with AA, TC, RD; RA, Z,
/// AD, CD and the response code fill byte 3.
pub fn flags() -> (r: Vec<(u8, u8, &'static str)>)
    ensures
        r@ == flag_table(),
{
    let r = vec![
        (2u8, 7u8, "qr"),
        (2u8, 2u8, "aa"),
        (2u8, 1u8, "tc"),
        (2u8, 0u8, "rd"),
        (3u8, 7u8, "ra"),
        (3u8, 6u8, "z"),
        (3u8, 5u8, "ad"),
        (3u8, 4u8, "cd"),
    ];
    assert(r@ =~= flag_table());
    r
}

/// The names of the flags of `t` that `b` has set, each after a space.
pub open spec fn flags_text(b: Seq<u8>, t: Seq<(u8, u8, &'static str)>) -> Seq<char>
    decreases t.len(),
{
    if t.len() == 0 {
        Seq::<char>::empty()
    } else {
        let (o0, o1, name) = t.last();
        flags_text(b, t.drop_last()) + if bit_of(b[o0 as int], o1) {
            " "@ + name@
        } else {
            Seq::<char>::empty()
        }
    }
}

/// The header of `b` in the form that `dig` prints it.
pub open spec fn header_text(b: Seq<u8>) -> Seq<char> {
    ";; ->>HEADER<<- opcode: "@ + opcode_text(opcode_of(b)) + ", rcode: "@ + rcode_text(
        rcode_of(b),
    ) + ", id: "@ + decimal(u16_at(b, 0) as nat) + "\n;; flags:"@ + flags_text(b, flag_table())
        + "; QUERY: "@ + decimal(u16_at(b, 4) as nat) + ", ANSWER: "@ + decimal(
        u16_at(b, 6) as nat,
    ) + ", AUTHORITY: "@ + decimal(u16_at(b, 8) as nat) + ", ADDITIONAL: "@ + decimal(
        u16_at(b, 10) as nat,
    ) + "\n"@
}

impl Query {
    /// The question as text: the name, a dot, the type and the class. The
    /// name must be valid UTF-8.
    pub fn to_string(&self) -> (r: String)
        requires
            self.name.wf(),
            valid_utf8(self.name@),
        ensures
            r@ == decode_utf8(self.name@) + ". "@ + qtype_text(self.qtype.0) + " "@ + qclass_text(
                self.qclass.0,
            ),
    {
        let mut s = self.name.to_string();
        s.append(". ");
        s.append(self.qtype.to_string().as_str());
        s.append(" ");
        s.append(self.qclass.to_string().as_str());
        s
    }
}

/// A DNS message in a caller's buffer; `len` bytes of it are the message.
pub struct Msg<'a> {
    buf: &'a mut [u8],
    len: u16,
    q_end: u16,
}

impl<'a> Msg<'a> {
    /// The bytes of the buffer.
    pub closed spec fn bytes(&self) -> Seq<u8> {
        self.buf@
    }

    /// The length of the message.
    pub closed spec fn msg_len(&self) -> int {
        self.len as int
    }

    /// The offset just past the question, once it has been read (0 before).
    pub closed spec fn question_end(&self) -> int {
        self.q_end as int
    }

    /// The header in the form that `dig` prints it: opcode, response code,
    /// ID, the flags that are set and the four counts.
    pub fn to_string(&self) -> (r: String)
        requires
            MSG_HEADER_LEN <= self.bytes().len(),
        ensures
            r@ == header_text(self.bytes()),
    {
        let mut s = ";; ->>HEADER<<- opcode: ".to_owned();
        s.append(self.opcode().to_string().as_str());
        s.append(", rcode: ");
        s.append(self.rcode().to_string().as_str());
        s.append(", id: ");
        s.append(to_decimal(self.id() as u32).as_str());
        s.append("\n;; flags:");
        let t = flags();
        let mut i: usize = 0;
        while i < t.len()
            invariant
                t@ == flag_table(),
                i <= t@.len(),
                MSG_HEADER_LEN <= self.bytes().len(),
                s@ == ";; ->>HEADER<<- opcode: "@ + opcode_text(opcode_of(self.bytes()))
                    + ", rcode: "@ + rcode_text(rcode_of(self.bytes())) + ", id: "@ + decimal(
                    u16_at(self.bytes(), 0) as nat,
                ) + "\n;; flags:"@ + flags_text(self.bytes(), t@.take(i as int)),
            decreases t@.len() - i,
        {
            let (o0, o1, name) = t[i];
            assert(t@.take(i + 1).drop_last() =~= t@.take(i as int));
            if self.get_flag(o0, o1) {
                s.append(" ");
                s.append(name);
            }
            i = i + 1;
        }
        assert(t@.take(t@.len() as int) =~= t@);
        s.append("; QUERY: ");
        s.append(to_decimal(self.qd_count() as u32).as_str());
        s.append(", ANSWER: ");
        s.append(to_decimal(self.an_count() as u32).as_str());
        s.append(", AUTHORITY: ");
        s.append(to_decimal(self.ns_count() as u32).as_str());
        s.append(", ADDITIONAL: ");
        s.append(to_decimal(self.ar_count() as u32).as_str());
        s.append("\n");
        s
    }

    /// Where the question ends (0 until it has been read): the answers are
    /// written there.
    pub fn q_end(&self) -> (r: usize)
        ensures
            r == self.question_end(),
    {
        self.q_end as usize
    }

    /// The length of the message.
    pub fn len(&self) -> (r: usize)
        ensures
            r == self.msg_len(),
    {
        self.len as usize
    }

    /// Reads the question: the message must be a standard query with one
    /// question, whose name is well formed and ASCII. Remembers where the
    /// question ends, for the answers.
    pub fn get_query(&mut self) -> (r: Result<Query, MsgError>)
        requires
            2 < old(self).bytes().len(),
            opcode_of(old(self).bytes()) == 0 ==> 6 <= old(self).bytes().len(),
            opcode_of(old(self).bytes()) == 0 && u16_at(old(self).bytes(), 4) == 1
                ==> question_in_buffer(old(self).bytes(), old(self).msg_len()),
        ensures
            final(self).bytes() == old(self).bytes(),
            final(self).msg_len() == old(self).msg_len(),
            opcode_of(old(self).bytes()) != 0 ==> r == Err::<Query, MsgError>(
                MsgError::UnkOpCode(OpCode(opcode_of(old(self).bytes()))),
            ),
            opcode_of(old(self).bytes()) == 0 && u16_at(old(self).bytes(), 4) != 1 ==> r
                is Err && r->Err_0 is FormErr,
            opcode_of(old(self).bytes()) == 0 && u16_at(old(self).bytes(), 4) == 1 ==> match
                question(old(self).bytes(), old(self).msg_len()) {
                None => r is Err && r->Err_0 is FormErr,
                Some((name, qtype, qclass, end)) => {
                    &&& r is Ok
                    &&& r->Ok_0.name.wf()
                    &&& r->Ok_0.name@ == name
                    &&& r->Ok_0.qtype == QType(qtype)
                    &&& r->Ok_0.qclass == QClass(qclass)
                    &&& final(self).question_end() == end
                },
            },
            r is Err ==> final(self).question_end() == old(self).question_end(),
    {
        let opcode = self.opcode();
        if opcode.0 != 0 {
            return Err(MsgError::UnkOpCode(opcode));
        }
        if self.qd_count() != 1 {
            return Err(MsgError::FormErr);
        }
        let ghost b = self.buf@;
        let len = self.len as usize;
        let mut offset: usize = MSG_HEADER_LEN;
        let mut name: CVec63 = CVec::new();
        let mut label_len = self.buf[offset] as usize;
        if label_len > 0 {
            loop
                invariant_except_break
                    b == self.buf@,
                    b == old(self).bytes(),
                    self.len == old(self).msg_len(),
                    self.q_end == old(self).question_end(),
                    opcode_of(b) == 0,
                    u16_at(b, 4) == 1,
                    b[12] != 0,
                    len == self.len,
                    question_in_buffer(b, len as int),
                    labels_in_buffer(b, len as int, offset as int),
                    MSG_HEADER_LEN <= offset < b.len(),
                    offset <= 65535,
                    label_len == b[offset as int],
                    label_len > 0,
                    name.wf(),
                    name@.len() <= offset,
                    name_from(b, len as int, offset as int, name@) == name_from(
                        b,
                        len as int,
                        12,
                        Seq::<u8>::empty(),
                    ),
                ensures
                    b == self.buf@,
                    b == old(self).bytes(),
                    self.len == old(self).msg_len(),
                    self.q_end == old(self).question_end(),
                    opcode_of(b) == 0,
                    u16_at(b, 4) == 1,
                    b[12] != 0,
                    len == self.len,
                    question_in_buffer(b, len as int),
                    offset <= len,
                    name.wf(),
                    name_from(b, len as int, 12, Seq::<u8>::empty()) == Some((name@, offset as int)),
                decreases len - offset,
            {
                if offset + 1 + label_len + 1 > len {
                    assert(name_from(b, len as int, offset as int, name@) is None);
                    return Err(MsgError::FormErr);
                }
                let ghost prev = name@;
                name.extend_from_slice(&self.buf[offset + 1..offset + 1 + label_len]);
                offset = offset + 1 + label_len;
                label_len = self.buf[offset] as usize;
                if label_len == 0 {
                    offset = offset + 1;
                    break;
                }
                name.push(46u8);
            }
        } else {
            offset = offset + 1;
        }
        if !is_ascii(name.as_slice()) {
            return Err(MsgError::FormErr);
        }
        if offset + 4 > len {
            return Err(MsgError::FormErr);
        }
        let qtype = QType(u16be(&self.buf[offset..offset + 2]));
        let qclass = QClass(u16be(&self.buf[offset + 2..offset + 4]));
        let q = Query { name, qtype, qclass };
        offset = offset + 4;
        self.q_end = offset as u16;
        Ok(q)
    }

    /// Takes the first `len` bytes of `bytes.0` as a message. Refuses one
    /// shorter than the shortest query, and one whose header says it was
    /// truncated.
    pub fn try_from(bytes: (&'a mut [u8], usize)) -> (r: Result<Msg<'a>, MsgError>)
        requires
            bytes.1 >= MSG_LEN_MIN ==> 2 < bytes.0@.len(),
        ensures
            bytes.1 < MSG_LEN_MIN ==> r is Err && r->Err_0 is FormErr,
            bytes.1 >= MSG_LEN_MIN && bit_of(old(bytes.0)@[2], 1) ==> r is Err && r->Err_0 is Truncated,
            bytes.1 >= MSG_LEN_MIN && !bit_of(old(bytes.0)@[2], 1) ==> {
                &&& r is Ok
                &&& r->Ok_0.bytes() == old(bytes.0)@
                &&& r->Ok_0.msg_len() == bytes.1 as u16
                &&& r->Ok_0.question_end() == 0
            },
            r is Err ==> final(bytes.0)@ == old(bytes.0)@,
    {
        let (buf, len) = bytes;
        if len < MSG_LEN_MIN {
            return Err(MsgError::FormErr);
        }
        let msg = Msg { buf, len: len as u16, q_end: 0 };
        if msg.tc() {
            return Err(MsgError::Truncated);
        }
        Ok(msg)
    }

    /// Marks the message as a response refused with `rcode`.
    pub fn deny(&mut self, rcode: RCode)
        requires
            3 < old(self).bytes().len(),
        ensures
            final(self).bytes() == denied(old(self).bytes(), rcode.0),
            final(self).msg_len() == old(self).msg_len(),
            final(self).question_end() == old(self).question_end(),
    {
        self.set_response();
        self.set_rcode(rcode);
    }

    /// Writes the header of a response (no error, one question, as many
    /// answers as `a` holds) and then each answer of `a`, every one at the end
    /// of the question; the message grows by each answer's length.
    pub fn answer(&mut self, a: &[Answer])
        requires
            MSG_HEADER_LEN <= old(self).bytes().len(),
            forall|i: int|
                0 <= i < a@.len() ==> answer_fits(
                    #[trigger] a@[i],
                    old(self).question_end(),
                    old(self).bytes().len() as int,
                ),
            old(self).msg_len() + answers_len(a@) <= 0xffff,
        ensures
            final(self).bytes() == write_answers(
                response_header(old(self).bytes(), 0, 1, a@.len() as u16, 0, 0),
                old(self).question_end(),
                a@,
            ),
            final(self).msg_len() == old(self).msg_len() + answers_len(a@),
            final(self).question_end() == old(self).question_end(),
            MSG_HEADER_LEN <= old(self).question_end() ==> {
                &&& u16_at(final(self).bytes(), 0) == u16_at(old(self).bytes(), 0)
                &&& u16_at(final(self).bytes(), 6) == a@.len() as u16
            },
    {
        self.set_response_header(RCode::NOERROR(), 1, a.len() as u16, 0, 0);
        let ghost hdr = self.bytes();
        let mut i: usize = 0;
        while i < a.len()
            invariant
                i <= a@.len(),
                self.bytes().len() == old(self).bytes().len(),
                self.question_end() == old(self).question_end(),
                forall|j: int|
                    0 <= j < a@.len() ==> answer_fits(
                        #[trigger] a@[j],
                        old(self).question_end(),
                        old(self).bytes().len() as int,
                    ),
                old(self).msg_len() + answers_len(a@) <= 0xffff,
                self.bytes() == write_answers(hdr, old(self).question_end(), a@.take(i as int)),
                self.msg_len() == old(self).msg_len() + answers_len(a@.take(i as int)),
            decreases a@.len() - i,
        {
            proof {
                lemma_answers_len_prefix(a@, i as int + 1);
                assert(a@.take(i + 1).drop_last() =~= a@.take(i as int));
            }
            self.inner_write_answer(&a[i]);
            i = i + 1;
        }
        assert(a@.take(a@.len() as int) =~= a@);
        proof {
            if MSG_HEADER_LEN <= old(self).question_end() {
                lemma_answer_keeps_id(
                    old(self).bytes(),
                    0,
                    1,
                    a@.len() as u16,
                    0,
                    0,
                    old(self).question_end(),
                    a@,
                );
            }
        }
    }

    /// Writes the answer `a` at the end of the question; the message grows by
    /// its length.
    fn inner_write_answer(&mut self, a: &Answer)
        requires
            answer_fits(*a, old(self).question_end(), old(self).bytes().len() as int),
            old(self).msg_len() + 12 + a.rdata.wire().len() <= 0xffff,
        ensures
            final(self).bytes() == splice(old(self).bytes(), old(self).question_end(), answer_wire(*a)),
            final(self).msg_len() == old(self).msg_len() + 12 + a.rdata.wire().len(),
            final(self).question_end() == old(self).question_end(),
    {
        let offset = self.q_end as usize;
        let ghost b0 = self.buf@;
        let ghost o = offset as int;
        let ghost w1 = be16(MC_QNAME);
        let ghost w2 = w1 + be16(a.qtype.0);
        let ghost w3 = w2 + be16(a.qclass.0);
        let ghost w4 = w3 + be32(a.ttl);
        let ghost w5 = w4 + be16(a.rdata.wire().len() as u16);
        let ghost w6 = w5 + a.rdata.wire();
        assert(w6 == answer_wire(*a));
        put_u16(self.buf, offset, MC_QNAME);
        put_u16(self.buf, offset + 2, a.qtype.0);
        proof {
            lemma_splice_concat(b0, o, w1, be16(a.qtype.0));
        }
        put_u16(self.buf, offset + 4, a.qclass.0);
        proof {
            lemma_splice_concat(b0, o, w2, be16(a.qclass.0));
        }
        put_u32(self.buf, offset + 6, a.ttl);
        proof {
            lemma_splice_concat(b0, o, w3, be32(a.ttl));
        }
        let len = a.rdata.len();
        put_u16(self.buf, offset + 10, len);
        proof {
            lemma_splice_concat(b0, o, w4, be16(len));
        }
        put_bytes(self.buf, offset + 12, a.rdata.as_slice());
        proof {
            lemma_splice_concat(b0, o, w5, a.rdata.wire());
        }
        self.len = self.len + 12 + len;
    }

    /// Writes the header of a response.
    fn set_response_header(&mut self, rcode: RCode, qd: u16, an: u16, ns: u16, ar: u16)
        requires
            MSG_HEADER_LEN <= old(self).bytes().len(),
        ensures
            final(self).bytes() == response_header(old(self).bytes(), rcode.0, qd, an, ns, ar),
            final(self).msg_len() == old(self).msg_len(),
            final(self).question_end() == old(self).question_end(),
    {
        self.set_response_ra();
        self.set_rcode(rcode);
        put_u16(self.buf, 4, qd);
        put_u16(self.buf, 6, an);
        put_u16(self.buf, 8, ns);
        put_u16(self.buf, 10, ar);
    }

    /// Marks the message as a response, with recursion available where it
    /// was desired.
    fn set_response_ra(&mut self)
        requires
            3 < old(self).bytes().len(),
        ensures
            final(self).bytes() == with_response_ra(old(self).bytes()),
            final(self).msg_len() == old(self).msg_len(),
            final(self).question_end() == old(self).question_end(),
    {
        self.set_response();
        if self.rd() {
            self.set_ra();
        }
    }

    /// The message's ID.
    pub fn id(&self) -> (r: u16)
        requires
            2 <= self.bytes().len(),
        ensures
            r == u16_at(self.bytes(), 0),
    {
        u16be(&self.buf[0..2])
    }

    /// The number of answers.
    pub fn an_count(&self) -> (r: u16)
        requires
            8 <= self.bytes().len(),
        ensures
            r == u16_at(self.bytes(), 6),
    {
        u16be(&self.buf[6..8])
    }

    /// The number of authority records.
    pub fn ns_count(&self) -> (r: u16)
        requires
            10 <= self.bytes().len(),
        ensures
            r == u16_at(self.bytes(), 8),
    {
        u16be(&self.buf[8..10])
    }

    /// The number of additional records.
    pub fn ar_count(&self) -> (r: u16)
        requires
            12 <= self.bytes().len(),
        ensures
            r == u16_at(self.bytes(), 10),
    {
        u16be(&self.buf[10..12])
    }

    /// Bit `o_bit` of byte `o_byte`.
    pub fn get_flag(&self, o_byte: u8, o_bit: u8) -> (r: bool)
        requires
            o_byte < self.bytes().len(),
            o_bit < 8,
        ensures
            r == bit_of(self.bytes()[o_byte as int], o_bit),
    {
        get_bit(self.buf[o_byte as usize], o_bit)
    }

    /// TC: the message was truncated.
    pub fn tc(&self) -> (r: bool)
        requires
            2 < self.bytes().len(),
        ensures
            r == bit_of(self.bytes()[2], 1),
    {
        self.get_flag(2, 1)
    }

    /// RD: recursion is desired.
    pub fn rd(&self) -> (r: bool)
        requires
            2 < self.bytes().len(),
        ensures
            r == bit_of(self.bytes()[2], 0),
    {
        self.get_flag(2, 0)
    }

    /// Z: the reserved bit.
    pub fn z(&self) -> (r: bool)
        requires
            3 < self.bytes().len(),
        ensures
            r == bit_of(self.bytes()[3], 6),
    {
        self.get_flag(3, 6)
    }

    /// Sets the ID.
    pub fn set_id(&mut self, id: u16)
        requires
            2 <= old(self).bytes().len(),
        ensures
            final(self).bytes() == splice(old(self).bytes(), 0, be16(id)),
            final(self).msg_len() == old(self).msg_len(),
            final(self).question_end() == old(self).question_end(),
    {
        put_u16(self.buf, 0, id);
    }

    /// Sets QR: the message is a response.
    fn set_response(&mut self)
        requires
            2 < old(self).bytes().len(),
        ensures
            final(self).bytes() == with_response(old(self).bytes()),
            final(self).msg_len() == old(self).msg_len(),
            final(self).question_end() == old(self).question_end(),
    {
        let mut b = self.buf[2];
        set_bit(&mut b, 7);
        self.buf[2] = b;
    }

    /// Sets RD: recursion is desired.
    pub fn set_rd(&mut self)
        requires
            2 < old(self).bytes().len(),
        ensures
            final(self).bytes() == old(self).bytes().update(2, with_bit(old(self).bytes()[2], 0)),
            final(self).msg_len() == old(self).msg_len(),
            final(self).question_end() == old(self).question_end(),
    {
        let mut b = self.buf[2];
        set_bit(&mut b, 0);
        self.buf[2] = b;
    }

    /// Sets RA: recursion is available.
    fn set_ra(&mut self)
        requires
            3 < old(self).bytes().len(),
        ensures
            final(self).bytes() == old(self).bytes().update(3, with_bit(old(self).bytes()[3], 7)),
            final(self).msg_len() == old(self).msg_len(),
            final(self).question_end() == old(self).question_end(),
    {
        let mut b = self.buf[3];
        set_bit(&mut b, 7);
        self.buf[3] = b;
    }

    /// Sets the opcode field.
    pub fn set_opcode(&mut self, c: OpCode)
        requires
            2 < old(self).bytes().len(),
        ensures
            final(self).bytes() == old(self).bytes().update(
                2,
                with_bits(old(self).bytes()[2], 3, 4, c.0),
            ),
            final(self).msg_len() == old(self).msg_len(),
            final(self).question_end() == old(self).question_end(),
    {
        let mut b = self.buf[2];
        set_bits(&mut b, 3, 4, c.0);
        self.buf[2] = b;
    }

    /// Sets the response code field.
    pub fn set_rcode(&mut self, c: RCode)
        requires
            3 < old(self).bytes().len(),
        ensures
            final(self).bytes() == with_rcode(old(self).bytes(), c.0),
            final(self).msg_len() == old(self).msg_len(),
            final(self).question_end() == old(self).question_end(),
    {
        let mut b = self.buf[3];
        set_bits(&mut b, 0, 4, c.0);
        self.buf[3] = b;
    }

    /// Sets the number of questions.
    pub fn set_qd(&mut self, qd: u16)
        requires
            6 <= old(self).bytes().len(),
        ensures
            final(self).bytes() == splice(old(self).bytes(), 4, be16(qd)),
            final(self).msg_len() == old(self).msg_len(),
            final(self).question_end() == old(self).question_end(),
    {
        put_u16(self.buf, 4, qd);
    }

    /// The opcode of the header.
    pub fn opcode(&self) -> (r: OpCode)
        requires
            2 < self.bytes().len(),
        ensures
            r == OpCode(opcode_of(self.bytes())),
    {
        OpCode(get_bits(self.buf[2], 3, 4))
    }

    /// The response code of the header.
    pub fn rcode(&self) -> (r: RCode)
        requires
            3 < self.bytes().len(),
        ensures
            r == RCode(rcode_of(self.bytes())),
    {
        RCode(get_bits(self.buf[3], 0, 4))
    }

    /// The number of questions.
    pub fn qd_count(&self) -> (r: u16)
        requires
            6 <= self.bytes().len(),
        ensures
            r == u16_at(self.bytes(), 4),
    {
        u16be(&self.buf[4..6])
    }
}

/// Writes `label`, preceded by its length, just after the labels `done`.
fn put_label(
    buf: &mut [u8],
    offset: usize,
    label: &[u8],
    Ghost(hdr): Ghost<Seq<u8>>,
    Ghost(done): Ghost<Seq<Seq<u8>>>,
)
    requires
        old(buf)@ == splice(hdr, 12, encode_labels(done)),
        hdr.len() == old(buf)@.len(),
        offset == 12 + encode_labels(done).len(),
        offset + 1 + label@.len() <= old(buf)@.len(),
        label@.len() <= LABEL_LEN_MAX,
    ensures
        final(buf)@ == splice(hdr, 12, encode_labels(done.push(label@))),
{
    proof {
        lemma_encode_push(done, label@);
    }
    let ghost before = buf@;
    buf[offset] = label.len() as u8;
    assert(buf@ =~= splice(before, offset as int, seq![label.len() as u8]));
    proof {
        lemma_splice_concat(hdr, 12, encode_labels(done), seq![label.len() as u8]);
    }
    put_bytes(buf, offset + 1, label);
    proof {
        lemma_splice_concat(hdr, 12, encode_labels(done) + seq![label.len() as u8], label@);
    }
}

/// Writes the root's zero, QTYPE and QCLASS just after the labels `enc`.
fn put_question_tail(
    buf: &mut [u8],
    offset: usize,
    qtype: u16,
    qclass: u16,
    Ghost(hdr): Ghost<Seq<u8>>,
    Ghost(enc): Ghost<Seq<u8>>,
)
    requires
        old(buf)@ == splice(hdr, 12, enc),
        hdr.len() == old(buf)@.len(),
        offset == 12 + enc.len(),
        offset + 5 <= old(buf)@.len(),
    ensures
        final(buf)@ == splice(hdr, 12, enc + seq![0u8] + be16(qtype) + be16(qclass)),
{
    let ghost before = buf@;
    buf[offset] = 0;
    assert(buf@ =~= splice(before, offset as int, seq![0u8]));
    proof {
        lemma_splice_concat(hdr, 12, enc, seq![0u8]);
    }
    put_u16(buf, offset + 1, qtype);
    proof {
        lemma_splice_concat(hdr, 12, enc + seq![0u8], be16(qtype));
    }
    put_u16(buf, offset + 3, qclass);
    proof {
        lemma_splice_concat(hdr, 12, enc + seq![0u8] + be16(qtype), be16(qclass));
    }
}

/// Writes a query for `q` with ID `id` into `buf`: sets the ID, RD and one
/// question in the header (the other header bytes are left as they are),
/// then the question. Returns the length of the message. Refuses a name
/// longer than 253 bytes (`buf` untouched), and a label longer than 63 bytes
/// (the labels before it are written).
pub fn mk_query(buf: &mut [u8], id: u16, q: Query) -> (r: Result<usize, MsgError>)
    requires
        q.name.wf(),
        q.name@.len() <= FQDN_LEN_MAX ==> 18 + q.name@.len() <= old(buf)@.len(),
    ensures
        q.name@.len() > FQDN_LEN_MAX ==> r is Err && r->Err_0 is FormErr && final(buf)@
            == old(buf)@,
        q.name@.len() <= FQDN_LEN_MAX && labels_short(split_dots(q.name@)) ==> {
            &&& r is Ok
            &&& r->Ok_0 == 18 + q.name@.len()
            &&& final(buf)@ == splice(
                query_header(old(buf)@, id),
                12,
                query_wire(q.name@, q.qtype.0, q.qclass.0),
            )
        },
        q.name@.len() <= FQDN_LEN_MAX && !labels_short(split_dots(q.name@)) ==> {
            &&& r is Err
            &&& r->Err_0 is FormErr
            &&& exists|k: int|
                #![trigger split_dots(q.name@).take(k)]
                0 <= k < split_dots(q.name@).len() && split_dots(q.name@)[k].len() > LABEL_LEN_MAX
                    && labels_short(split_dots(q.name@).take(k)) && final(buf)@ == splice(
                    query_header(old(buf)@, id),
                    12,
                    encode_labels(split_dots(q.name@).take(k)),
                )
        },
{
    if q.name.len() > FQDN_LEN_MAX {
        return Err(MsgError::FormErr);
    }
    put_u16(buf, 0, id);
    let mut b2 = buf[2];
    set_bit(&mut b2, 0);
    buf[2] = b2;
    put_u16(buf, 4, 1);
    let ghost hdr = buf@;
    assert(hdr == query_header(old(buf)@, id));
    let name = q.name.as_slice();
    let n = name.len();
    let ghost nm = name@;
    let mut offset: usize = MSG_HEADER_LEN;
    let mut start: usize = 0;
    let mut i: usize = 0;
    let ghost mut done: Seq<Seq<u8>> = Seq::empty();
    assert(nm.take(0) =~= Seq::<u8>::empty());
    assert(nm.subrange(0, 0) =~= Seq::<u8>::empty());
    assert(splice(hdr, 12, Seq::<u8>::empty()) =~= hdr);
    while i < n
        invariant
            nm == name@,
            nm == q.name@,
            n == nm.len(),
            n <= FQDN_LEN_MAX,
            18 + n <= buf@.len(),
            hdr.len() == buf@.len(),
            hdr == query_header(old(buf)@, id),
            start <= i <= n,
            split_dots(nm.take(i as int)) == done.push(nm.subrange(start as int, i as int)),
            labels_short(done),
            offset == 12 + encode_labels(done).len(),
            buf@ == splice(hdr, 12, encode_labels(done)),
        decreases n - i,
    {
        let ghost cur = nm.subrange(start as int, i as int);
        assert(nm.take(i + 1).drop_last() =~= nm.take(i as int));
        if name[i] == 46u8 {
            proof {
                lemma_encode_split_len(nm.take(i as int));
                lemma_encode_push(done, cur);
            }
            if i - start > LABEL_LEN_MAX {
                proof {
                    lemma_split_prefix(nm, i as int + 1);
                    let k = done.len() as int;
                    assert(nm.take(n as int) =~= nm);
                    assert(split_dots(nm.take(i + 1)) == done.push(cur).push(Seq::<u8>::empty()));
                    assert(split_dots(nm)[k] == cur);
                    assert(split_dots(nm).take(k) =~= done);
                    assert(!labels_short(split_dots(nm)));
                }
                return Err(MsgError::FormErr);
            }
            put_label(buf, offset, &name[start..i], Ghost(hdr), Ghost(done));
            offset = offset + 1 + (i - start);
            proof {
                done = done.push(cur);
                assert(nm.subrange(i + 1, i + 1) =~= Seq::<u8>::empty());
            }
            start = i + 1;
        } else {
            assert(nm.subrange(start as int, i + 1) =~= cur.push(nm[i as int]));
            assert(done.push(cur).update(done.len() as int, cur.push(nm[i as int])) =~= done.push(
                cur.push(nm[i as int]),
            ));
        }
        i = i + 1;
    }
    let ghost cur = nm.subrange(start as int, n as int);
    assert(nm.take(n as int) =~= nm);
    assert(split_dots(nm) == done.push(cur));
    proof {
        lemma_encode_split_len(nm);
        lemma_encode_push(done, cur);
    }
    if n - start > LABEL_LEN_MAX {
        proof {
            let k = done.len() as int;
            assert(split_dots(nm)[k] == cur);
            assert(split_dots(nm).take(k) =~= done);
        }
        return Err(MsgError::FormErr);
    }
    put_label(buf, offset, &name[start..n], Ghost(hdr), Ghost(done));
    let ghost enc = encode_labels(split_dots(nm));
    proof {
        assert forall|j: int| 0 <= j < split_dots(nm).len() implies (#[trigger] split_dots(
            nm,
        )[j]).len() <= LABEL_LEN_MAX by {
            if j < done.len() {
                assert(split_dots(nm)[j] == done[j]);
            }
        }
    }
    offset = offset + 1 + (n - start);
    put_question_tail(buf, offset, q.qtype.0, q.qclass.0, Ghost(hdr), Ghost(enc));
    Ok(MSG_HEADER_LEN + 1 + n + 1 + 2 + 2)
}

// ---------------------------------------------------------------------------
// Reading back what was written.

/// The labels joined by `.`.
pub open spec fn join_dots(ls: Seq<Seq<u8>>) -> Seq<u8>
    decreases ls.len(),
{
    if ls.len() == 0 {
        Seq::<u8>::empty()
    } else if ls.len() == 1 {
        ls[0]
    } else {
        join_dots(ls.drop_last()).push(46u8) + ls.last()
    }
}

/// Whether every label is non-empty and no longer than the limit.
pub open spec fn labels_valid(ls: Seq<Seq<u8>>) -> bool {
    forall|i: int| 0 <= i < ls.len() ==> 1 <= (#[trigger] ls[i]).len() <= LABEL_LEN_MAX
}

/// Joining the labels of a name gives the name back.
pub proof fn lemma_join_split(s: Seq<u8>)
    ensures
        join_dots(split_dots(s)) == s,
    decreases s.len(),
{
    if s.len() == 0 {
        assert(split_dots(s) =~= seq![Seq::<u8>::empty()]);
    } else {
        let t = s.drop_last();
        lemma_join_split(t);
        lemma_split_dots_nonempty(t);
        let p = split_dots(t);
        if s.last() == 46u8 {
            let q = p.push(Seq::<u8>::empty());
            assert(q.drop_last() =~= p);
            assert(join_dots(q) =~= s);
        } else {
            let q = p.update(p.len() - 1, p.last().push(s.last()));
            if p.len() == 1 {
                assert(s =~= t.push(s.last()));
                assert(join_dots(q) == q[0]);
                assert(join_dots(p) == p[0]);
                assert(join_dots(q) =~= s);
            } else {
                assert(q.drop_last() =~= p.drop_last());
                assert(q.last() == p.last().push(s.last()));
                assert(join_dots(p) == join_dots(p.drop_last()).push(46u8) + p.last());
                assert(join_dots(q) == join_dots(q.drop_last()).push(46u8) + q.last());
                assert(s =~= t.push(s.last()));
                let a = join_dots(p.drop_last()).push(46u8);
                assert(a + p.last().push(s.last()) =~= (a + p.last()).push(s.last()));
                assert(join_dots(q) =~= s);
            }
        }
    }
}

/// Encoding a first label and then the rest.
proof fn lemma_encode_cons(x: Seq<u8>, rest: Seq<Seq<u8>>)
    ensures
        encode_labels(seq![x] + rest) == seq![x.len() as u8] + x + encode_labels(rest),
    decreases rest.len(),
{
    if rest.len() == 0 {
        assert(seq![x] + rest =~= Seq::<Seq<u8>>::empty().push(x));
        lemma_encode_push(Seq::<Seq<u8>>::empty(), x);
        assert(encode_labels(Seq::<Seq<u8>>::empty()) =~= Seq::<u8>::empty());
        assert(encode_labels(rest) =~= Seq::<u8>::empty());
        assert(encode_labels(seq![x] + rest) =~= seq![x.len() as u8] + x + encode_labels(rest));
    } else {
        lemma_encode_cons(x, rest.drop_last());
        assert((seq![x] + rest).drop_last() =~= seq![x] + rest.drop_last());
        assert(encode_labels(seq![x] + rest) =~= seq![x.len() as u8] + x + encode_labels(rest));
    }
}

/// Joining a first label and then the rest.
proof fn lemma_join_cons(x: Seq<u8>, rest: Seq<Seq<u8>>)
    requires
        rest.len() >= 1,
    ensures
        join_dots(seq![x] + rest) == x.push(46u8) + join_dots(rest),
    decreases rest.len(),
{
    if rest.len() == 1 {
        assert((seq![x] + rest).drop_last() =~= seq![x]);
        assert(join_dots(seq![x]) == x);
        assert(join_dots(rest) == rest[0]);
        assert((seq![x] + rest).last() == rest[0]);
        assert(join_dots(seq![x] + rest) == join_dots(seq![x]).push(46u8) + rest[0]);
        assert(join_dots(seq![x] + rest) =~= x.push(46u8) + join_dots(rest));
    } else {
        lemma_join_cons(x, rest.drop_last());
        assert((seq![x] + rest).drop_last() =~= seq![x] + rest.drop_last());
        assert((seq![x] + rest).last() == rest.last());
        assert(join_dots(rest) == join_dots(rest.drop_last()).push(46u8) + rest.last());
        assert(join_dots(seq![x] + rest) == join_dots(seq![x] + rest.drop_last()).push(46u8)
            + rest.last());
        let j = join_dots(rest.drop_last());
        assert(join_dots(seq![x] + rest.drop_last()) == x.push(46u8) + j);
        assert((x.push(46u8) + j).push(46u8) + rest.last() =~= x.push(46u8) + (j.push(46u8)
            + rest.last()));
        assert(join_dots(seq![x] + rest) =~= x.push(46u8) + join_dots(rest));
    }
}

/// Reading encoded labels, followed by the root's zero, gives them joined.
proof fn lemma_name_from_labels(m: Seq<u8>, len: int, off: int, acc: Seq<u8>, ls: Seq<Seq<u8>>)
    requires
        ls.len() >= 1,
        labels_valid(ls),
        0 <= off,
        off + encode_labels(ls).len() + 1 <= len,
        len <= m.len(),
        m.subrange(off, off + encode_labels(ls).len() + 1) == encode_labels(ls) + seq![0u8],
    ensures
        name_from(m, len, off, acc) == Some((acc + join_dots(ls), off + encode_labels(ls).len() + 1)),
    decreases ls.len(),
{
    let x = ls[0];
    let rest = ls.drop_first();
    assert(ls =~= seq![x] + rest);
    lemma_encode_cons(x, rest);
    let e = encode_labels(ls);
    let w = e + seq![0u8];
    assert(m[off] == w[0]);
    assert(w[0] == x.len() as u8);
    let next = off + 1 + x.len();
    assert(m.subrange(off + 1, next) =~= x) by {
        assert forall|j: int| 0 <= j < x.len() implies m.subrange(off + 1, next)[j] == x[j] by {
            assert(m[off + 1 + j] == w[1 + j]);
        }
    }
    if rest.len() == 0 {
        assert(encode_labels(rest) =~= Seq::<u8>::empty());
        assert(m[next] == w[1 + x.len() as int]);
        assert(join_dots(ls) == x);
    } else {
        assert(labels_valid(rest)) by {
            assert forall|i: int| 0 <= i < rest.len() implies 1 <= (#[trigger] rest[i]).len()
                <= LABEL_LEN_MAX by {
                assert(rest[i] == ls[i + 1]);
            }
        }
        let er = encode_labels(rest);
        lemma_encode_cons(rest[0], rest.drop_first());
        assert(rest =~= seq![rest[0]] + rest.drop_first());
        assert(m[next] == w[1 + x.len() as int]);
        assert(w[1 + x.len() as int] == er[0]);
        assert(m.subrange(next, next + er.len() + 1) =~= er + seq![0u8]) by {
            assert forall|j: int| 0 <= j < er.len() + 1 implies m.subrange(
                next,
                next + er.len() + 1,
            )[j] == (er + seq![0u8])[j] by {
                assert(m[next + j] == w[1 + x.len() + j]);
            }
        }
        lemma_name_from_labels(m, len, next, (acc + x).push(46u8), rest);
        lemma_join_cons(x, rest);
        assert((acc + x).push(46u8) + join_dots(rest) =~= acc + join_dots(ls));
    }
}

/// The bytes of a big-endian `u16` read back as it.
pub proof fn lemma_be16_read(b: Seq<u8>, i: int, v: u16)
    requires
        0 <= i,
        i + 2 <= b.len(),
        b.subrange(i, i + 2) == be16(v),
    ensures
        u16_at(b, i) == v,
{
    assert(b[i] == be16(v)[0]);
    assert(b[i + 1] == be16(v)[1]);
    assert(((v / 256) as u8) as int * 256 + ((v % 256) as u8) as int == v) by (nonlinear_arith);
}

/// Law: the question of a query that `mk_query` wrote reads back as the
/// name, type and class it was given, where every label of the name is
/// non-empty and at most 63 bytes long, every byte of the name is below 128
/// and the name is not longer than 253 bytes. The header
/// then counts one question, carries the ID, and keeps the opcode and the
/// TC flag that the buffer had.
#[verifier::spinoff_prover]
pub proof fn lemma_query_roundtrip(b: Seq<u8>, id: u16, name: Seq<u8>, qtype: u16, qclass: u16)
    requires
        name.len() <= FQDN_LEN_MAX,
        18 + name.len() <= b.len(),
        forall|i: int| 0 <= i < name.len() ==> name[i] < 128,
        labels_valid(split_dots(name)),
    ensures
        ({
            let m = splice(query_header(b, id), 12, query_wire(name, qtype, qclass));
            let len = 18 + name.len() as int;
            &&& m.len() == b.len()
            &&& question(m, len) == Some((name, qtype, qclass, len))
            &&& u16_at(m, 0) == id
            &&& u16_at(m, 4) == 1
            &&& opcode_of(m) == opcode_of(b)
            &&& bit_of(m[2], 1) == bit_of(b[2], 1)
            &&& bit_of(m[2], 0)
        }),
{
    assert(ascii_bytes(name));
    let h = query_header(b, id);
    let ls = split_dots(name);
    let e = encode_labels(ls);
    let w = query_wire(name, qtype, qclass);
    let m = splice(h, 12, w);
    let len = 18 + name.len() as int;
    lemma_encode_split_len(name);
    lemma_split_dots_nonempty(name);
    lemma_join_split(name);
    assert(w.len() == name.len() + 6);
    assert(m.len() == b.len());
    assert forall|j: int| 0 <= j < w.len() implies m[12 + j] == w[j] by {}
    assert(m.subrange(12, 12 + e.len() as int + 1) =~= e + seq![0u8]) by {
        assert forall|j: int| 0 <= j < e.len() + 1 implies m.subrange(12, 12 + e.len() as int + 1)[j]
            == (e + seq![0u8])[j] by {
            assert(m[12 + j] == w[j]);
        }
    }
    lemma_name_from_labels(m, len, 12, Seq::<u8>::empty(), ls);
    lemma_encode_cons(ls[0], ls.drop_first());
    assert(ls =~= seq![ls[0]] + ls.drop_first());
    assert(m[12] == w[0]);
    assert(Seq::<u8>::empty() + name =~= name);
    let off = 12 + e.len() as int + 1;
    assert(m.subrange(off, off + 2) =~= be16(qtype)) by {
        assert(m[off] == w[e.len() as int + 1]);
        assert(m[off + 1] == w[e.len() as int + 2]);
    }
    assert(m.subrange(off + 2, off + 4) =~= be16(qclass)) by {
        assert(m[off + 2] == w[e.len() as int + 3]);
        assert(m[off + 3] == w[e.len() as int + 4]);
    }
    lemma_be16_read(m, off, qtype);
    lemma_be16_read(m, off + 2, qclass);
    let b1 = splice(b, 0, be16(id));
    assert(m.subrange(0, 2) =~= be16(id)) by {
        assert(m[0] == h[0]);
        assert(m[1] == h[1]);
    }
    lemma_be16_read(m, 0, id);
    assert(m.subrange(4, 6) =~= be16(1)) by {
        assert(m[4] == h[4]);
        assert(m[5] == h[5]);
    }
    lemma_be16_read(m, 4, 1);
    assert(m[2] == with_bit(b[2], 0));
    let x = b[2];
    assert(bits_of(with_bit(x, 0), 3, 4) == bits_of(x, 3, 4)) by (bit_vector);
    assert(bit_of(with_bit(x, 0), 1) == bit_of(x, 1)) by (bit_vector);
    assert(bit_of(with_bit(x, 0), 0)) by (bit_vector);
    assert(m.len() == b.len());
    assert(question(m, len) == Some((name, qtype, qclass, len)));
    assert(u16_at(m, 0) == id);
    assert(u16_at(m, 4) == 1);
    assert(opcode_of(m) == opcode_of(b));
    assert(bit_of(m[2], 1) == bit_of(b[2], 1));
}

/// Law: bits put into a field read back, where they fit the field.
pub proof fn lemma_bits_put_get(b: u8, o: u8, l: u8, v: u8)
    requires
        o < 8,
        l < 8,
        o + l <= 8,
        v <= low_mask(l),
    ensures
        bits_of(with_bits(b, o, l, v), o, l) == v,
{
    assert(bits_of(with_bits(b, o, l, v), o, l) == v) by (bit_vector)
        requires
            o < 8u8,
            l < 8u8,
            o + l <= 8u8,
            v <= low_mask(l),
    ;
}

/// Law: putting bits into a field, where they fit it, leaves every bit
/// outside the field as it was.
pub proof fn lemma_bits_put_other(b: u8, o: u8, l: u8, v: u8, k: u8)
    requires
        o < 8,
        l < 8,
        o + l <= 8,
        v <= low_mask(l),
        k < 8,
        k < o || o + l <= k,
    ensures
        bit_of(with_bits(b, o, l, v), k) == bit_of(b, k),
{
    assert(bit_of(with_bits(b, o, l, v), k) == bit_of(b, k)) by (bit_vector)
        requires
            o < 8u8,
            l < 8u8,
            o + l <= 8u8,
            v <= low_mask(l),
            k < 8u8,
            k < o || o + l <= k,
    ;
}

/// Law: a bit that was set reads as set, and every other bit as it was.
pub proof fn lemma_bit_set_get(b: u8, o: u8, k: u8)
    requires
        o < 8,
        k < 8,
    ensures
        bit_of(with_bit(b, o), o),
        k != o ==> bit_of(with_bit(b, o), k) == bit_of(b, k),
{
    assert(bit_of(with_bit(b, o), o)) by (bit_vector)
        requires
            o < 8u8,
    ;
    assert(k != o ==> bit_of(with_bit(b, o), k) == bit_of(b, k)) by (bit_vector)
        requires
            o < 8u8,
            k < 8u8,
    ;
}

/// Law: a refused message reads back as a response with the response code it
/// was refused with (where that fits the field's four bits); its opcode, its
/// other flags and every other byte stay as they were.
pub proof fn lemma_deny_reads_back(b: Seq<u8>, c: u8)
    requires
        3 < b.len(),
        c < 16,
    ensures
        ({
            let d = denied(b, c);
            &&& d.len() == b.len()
            &&& rcode_of(d) == c
            &&& bit_of(d[2], 7)
            &&& opcode_of(d) == opcode_of(b)
            &&& forall|k: u8| k < 7 ==> bit_of(d[2], k) == bit_of(b[2], k)
            &&& forall|k: u8| 4 <= k < 8 ==> bit_of(d[3], k) == bit_of(b[3], k)
            &&& forall|i: int| 0 <= i < b.len() && i != 2 && i != 3 ==> d[i] == b[i]
        }),
{
    let d = denied(b, c);
    let x = b[2];
    let y = b[3];
    assert(d[2] == with_bit(x, 7));
    assert(d[3] == with_bits(y, 0, 4, c));
    assert(bits_of(with_bits(y, 0, 4, c), 0, 4) == c) by (bit_vector)
        requires
            c < 16u8,
    ;
    assert(bit_of(with_bit(x, 7), 7)) by (bit_vector);
    assert(bits_of(with_bit(x, 7), 3, 4) == bits_of(x, 3, 4)) by (bit_vector);
    assert forall|k: u8| k < 7 implies bit_of(d[2], k) == bit_of(b[2], k) by {
        lemma_bit_set_get(x, 7, k);
    }
    assert forall|k: u8| 4 <= k < 8 implies bit_of(d[3], k) == bit_of(b[3], k) by {
        assert(low_mask(4) == 15u8) by (bit_vector);
        lemma_bits_put_other(y, 0, 4, c, k);
    }
}

/// Law: a response code that was set reads back (where it fits the field's
/// four bits); the other four bits of its byte and every other byte stay as
/// they were.
pub proof fn lemma_rcode_reads_back(b: Seq<u8>, c: u8)
    requires
        3 < b.len(),
        c < 16,
    ensures
        ({
            let d = with_rcode(b, c);
            &&& d.len() == b.len()
            &&& rcode_of(d) == c
            &&& d[3] & 0xf0u8 == b[3] & 0xf0u8
            &&& forall|i: int| 0 <= i < b.len() && i != 3 ==> d[i] == b[i]
        }),
{
    let y = b[3];
    assert(bits_of(with_bits(y, 0, 4, c), 0, 4) == c) by (bit_vector)
        requires
            c < 16u8,
    ;
    assert(with_bits(y, 0, 4, c) & 0xf0u8 == y & 0xf0u8) by (bit_vector)
        requires
            c < 16u8,
    ;
}

/// Law: the header of a response reads back: QR set, RA set where RD is
/// (else as it was), the
/// response code (where it fits four bits) and the four counts; the opcode
/// stays as it was.
pub proof fn lemma_response_header_reads_back(
    b: Seq<u8>,
    c: u8,
    qd: u16,
    an: u16,
    ns: u16,
    ar: u16,
)
    requires
        MSG_HEADER_LEN <= b.len(),
        c < 16,
    ensures
        ({
            let h = response_header(b, c, qd, an, ns, ar);
            &&& h.len() == b.len()
            &&& bit_of(h[2], 7)
            &&& bit_of(h[3], 7) == (bit_of(b[2], 0) || bit_of(b[3], 7))
            &&& rcode_of(h) == c
            &&& opcode_of(h) == opcode_of(b)
            &&& u16_at(h, 4) == qd
            &&& u16_at(h, 6) == an
            &&& u16_at(h, 8) == ns
            &&& u16_at(h, 10) == ar
            &&& h[0] == b[0] && h[1] == b[1]
            &&& u16_at(h, 0) == u16_at(b, 0)
            &&& forall|i: int| MSG_HEADER_LEN <= i < b.len() ==> h[i] == b[i]
        }),
{
    let x = b[2];
    let y = b[3];
    let r = with_response_ra(b);
    let x1 = with_bit(x, 7);
    assert(r[2] == x1);
    assert(bit_of(with_bit(x, 7), 0) == bit_of(x, 0)) by (bit_vector);
    assert(bit_of(with_bit(x, 7), 7)) by (bit_vector);
    assert(bits_of(with_bit(x, 7), 3, 4) == bits_of(x, 3, 4)) by (bit_vector);
    let y1 = r[3];
    assert(y1 == y || y1 == with_bit(y, 7));
    let y2 = with_bits(y1, 0, 4, c);
    assert(bits_of(with_bits(y1, 0, 4, c), 0, 4) == c) by (bit_vector)
        requires
            c < 16u8,
    ;
    assert(bit_of(with_bits(y1, 0, 4, c), 7) == bit_of(y1, 7)) by (bit_vector)
        requires
            c < 16u8,
    ;
    assert(bit_of(with_bit(y, 7), 7)) by (bit_vector);
    let h0 = with_rcode(r, c);
    let h1 = splice(h0, 4, be16(qd));
    let h2 = splice(h1, 6, be16(an));
    let h3 = splice(h2, 8, be16(ns));
    let h = splice(h3, 10, be16(ar));
    assert(h == response_header(b, c, qd, an, ns, ar));
    assert(h[2] == x1);
    assert(h[3] == y2);
    assert(h.subrange(4, 6) =~= be16(qd));
    assert(h.subrange(6, 8) =~= be16(an));
    assert(h.subrange(8, 10) =~= be16(ns));
    assert(h.subrange(10, 12) =~= be16(ar));
    lemma_be16_read(h, 4, qd);
    lemma_be16_read(h, 6, an);
    lemma_be16_read(h, 8, ns);
    lemma_be16_read(h, 10, ar);
    assert(bit_of(h[3], 7) == (bit_of(b[2], 0) || bit_of(b[3], 7)));
    assert(rcode_of(h) == c);
    assert(opcode_of(h) == opcode_of(b));
}

/// Answers written at `at` keep the length of `b` and every byte below `at`.
pub proof fn lemma_write_answers_keeps_below(b: Seq<u8>, at: int, s: Seq<Answer>)
    requires
        0 <= at,
        forall|i: int| 0 <= i < s.len() ==> answer_fits(#[trigger] s[i], at, b.len() as int),
    ensures
        write_answers(b, at, s).len() == b.len(),
        forall|j: int| 0 <= j < at ==> #[trigger] write_answers(b, at, s)[j] == b[j],
    decreases s.len(),
{
    if s.len() > 0 {
        let p = s.drop_last();
        assert forall|i: int| 0 <= i < p.len() implies answer_fits(#[trigger] p[i], at, b.len() as int) by {
            assert(p[i] == s[i]);
        }
        lemma_write_answers_keeps_below(b, at, p);
        assert(answer_fits(s[s.len() - 1], at, b.len() as int));
        let w = write_answers(b, at, p);
        let x = answer_wire(s.last());
        assert(x.len() == 12 + s.last().rdata.wire().len());
        assert forall|j: int| 0 <= j < at implies #[trigger] write_answers(b, at, s)[j] == b[j] by {
            assert(write_answers(b, at, s) == splice(w, at, x));
            assert(splice(w, at, x)[j] == w[j]);
        }
    }
}

/// Law: a response keeps the ID of the query it answers: after the response
/// header and the answers written after the header, bytes 0 and 1 are those
/// of the query, and the four counts read back as written.
pub proof fn lemma_answer_keeps_id(
    b: Seq<u8>,
    c: u8,
    qd: u16,
    an: u16,
    ns: u16,
    ar: u16,
    at: int,
    s: Seq<Answer>,
)
    requires
        MSG_HEADER_LEN <= b.len(),
        c < 16,
        MSG_HEADER_LEN <= at,
        forall|i: int| 0 <= i < s.len() ==> answer_fits(#[trigger] s[i], at, b.len() as int),
    ensures
        ({
            let m = write_answers(response_header(b, c, qd, an, ns, ar), at, s);
            &&& m.len() == b.len()
            &&& m[0] == b[0] && m[1] == b[1]
            &&& u16_at(m, 0) == u16_at(b, 0)
            &&& u16_at(m, 4) == qd
            &&& u16_at(m, 6) == an
            &&& u16_at(m, 8) == ns
            &&& u16_at(m, 10) == ar
        }),
{
    let h = response_header(b, c, qd, an, ns, ar);
    lemma_response_header_reads_back(b, c, qd, an, ns, ar);
    lemma_write_answers_keeps_below(h, at, s);
    let m = write_answers(h, at, s);
    assert(m[0] == h[0] && m[1] == h[1]);
    assert(m[4] == h[4] && m[5] == h[5] && m[6] == h[6] && m[7] == h[7]);
    assert(m[8] == h[8] && m[9] == h[9] && m[10] == h[10] && m[11] == h[11]);
}

/// Law: the header text shows as ID and as the QUERY, ANSWER, AUTHORITY and
/// ADDITIONAL counts the big-endian numbers in bytes 0-1, 4-5, 6-7, 8-9 and
/// 10-11, in decimal.
pub proof fn lemma_header_text_counts(b: Seq<u8>)
    requires
        MSG_HEADER_LEN <= b.len(),
    ensures
        exists|p: Seq<char>|
            #![trigger p + ", id: "@]
            header_text(b) == p + ", id: "@ + decimal((b[0] * 256 + b[1]) as nat) + "\n;; flags:"@
                + flags_text(b, flag_table()) + "; QUERY: "@ + decimal((b[4] * 256 + b[5]) as nat) + ", ANSWER: "@ + decimal(
                (b[6] * 256 + b[7]) as nat,
            ) + ", AUTHORITY: "@ + decimal((b[8] * 256 + b[9]) as nat) + ", ADDITIONAL: "@
                + decimal((b[10] * 256 + b[11]) as nat) + "\n"@,
{
    assert forall|i: int| 0 <= i < 11 implies u16_at(b, i) as nat == (b[i] * 256 + b[i + 1]) as nat by {
        assert(b[i] * 256 + b[i + 1] < 0x10000) by (nonlinear_arith)
            requires
                b[i] < 256,
                b[i + 1] < 256,
        ;
    }
    let p = ";; ->>HEADER<<- opcode: "@ + opcode_text(opcode_of(b)) + ", rcode: "@ + rcode_text(
        rcode_of(b),
    );
    let f = flags_text(b, flag_table());
    assert(u16_at(b, 0) as nat == (b[0] * 256 + b[1]) as nat);
    assert(u16_at(b, 4) as nat == (b[4] * 256 + b[5]) as nat);
    assert(u16_at(b, 6) as nat == (b[6] * 256 + b[7]) as nat);
    assert(u16_at(b, 8) as nat == (b[8] * 256 + b[9]) as nat);
    assert(u16_at(b, 10) as nat == (b[10] * 256 + b[11]) as nat);
    assert(header_text(b) == p + ", id: "@ + decimal((b[0] * 256 + b[1]) as nat) + "\n;; flags:"@
        + f + "; QUERY: "@ + decimal((b[4] * 256 + b[5]) as nat) + ", ANSWER: "@ + decimal(
        (b[6] * 256 + b[7]) as nat,
    ) + ", AUTHORITY: "@ + decimal((b[8] * 256 + b[9]) as nat) + ", ADDITIONAL: "@ + decimal(
        (b[10] * 256 + b[11]) as nat,
    ) + "\n"@);
}

/// Law: the header text of a response shows the ID of the query it answers
/// and, as QUERY, ANSWER, AUTHORITY and ADDITIONAL, the counts that the
/// response header was given, whatever answers follow the header.
pub proof fn lemma_answered_header_text(
    b: Seq<u8>,
    c: u8,
    qd: u16,
    an: u16,
    ns: u16,
    ar: u16,
    at: int,
    s: Seq<Answer>,
)
    requires
        MSG_HEADER_LEN <= b.len(),
        c < 16,
        MSG_HEADER_LEN <= at,
        forall|i: int| 0 <= i < s.len() ==> answer_fits(#[trigger] s[i], at, b.len() as int),
    ensures
        ({
            let m = write_answers(response_header(b, c, qd, an, ns, ar), at, s);
            exists|p: Seq<char>|
                #![trigger p + ", id: "@]
                header_text(m) == p + ", id: "@ + decimal(u16_at(b, 0) as nat) + "\n;; flags:"@
                    + flags_text(m, flag_table()) + "; QUERY: "@ + decimal(qd as nat)
                    + ", ANSWER: "@ + decimal(an as nat) + ", AUTHORITY: "@ + decimal(ns as nat)
                    + ", ADDITIONAL: "@ + decimal(ar as nat) + "\n"@
        }),
{
    lemma_answer_keeps_id(b, c, qd, an, ns, ar, at, s);
    let m = write_answers(response_header(b, c, qd, an, ns, ar), at, s);
    let p = ";; ->>HEADER<<- opcode: "@ + opcode_text(opcode_of(m)) + ", rcode: "@ + rcode_text(
        rcode_of(m),
    );
    let f = flags_text(m, flag_table());
    assert(header_text(m) == p + ", id: "@ + decimal(u16_at(b, 0) as nat) + "\n;; flags:"@ + f
        + "; QUERY: "@ + decimal(qd as nat) + ", ANSWER: "@ + decimal(an as nat) + ", AUTHORITY: "@
        + decimal(ns as nat) + ", ADDITIONAL: "@ + decimal(ar as nat) + "\n"@);
}

/// The labels of a prefix of `s` that a dot has closed stay labels of `s`,
/// and its last label begins the label of `s` at that place.
pub proof fn lemma_split_prefix(s: Seq<u8>, j: int)
    requires
        0 <= j <= s.len(),
    ensures
        split_dots(s.take(j)).len() <= split_dots(s).len(),
        forall|x: int|
            0 <= x < split_dots(s.take(j)).len() - 1 ==> #[trigger] split_dots(s)[x] == split_dots(
                s.take(j),
            )[x],
        split_dots(s)[split_dots(s.take(j)).len() - 1].take(
            split_dots(s.take(j)).last().len() as int,
        ) == split_dots(s.take(j)).last(),
        split_dots(s.take(j)).last().len() <= split_dots(s)[split_dots(s.take(j)).len() - 1].len(),
    decreases s.len(),
{
    lemma_split_dots_nonempty(s);
    lemma_split_dots_nonempty(s.take(j));
    if j == s.len() {
        assert(s.take(j) =~= s);
        assert(split_dots(s).last().take(split_dots(s).last().len() as int) =~= split_dots(s).last());
    } else {
        let t = s.drop_last();
        assert(t.take(j) =~= s.take(j));
        lemma_split_prefix(t, j);
        lemma_split_dots_nonempty(t);
        let a = split_dots(s.take(j));
        let b0 = split_dots(t);
        let b = split_dots(s);
        let m = a.len() - 1;
        if s.last() == 46u8 {
            assert(b == b0.push(Seq::<u8>::empty()));
        } else {
            assert(b == b0.update(b0.len() - 1, b0.last().push(s.last())));
            if m == b0.len() - 1 {
                assert(b[m].take(a.last().len() as int) =~= b0[m].take(a.last().len() as int));
            }
        }
    }
}

} // verus!
