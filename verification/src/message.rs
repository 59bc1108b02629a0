//! The packet: a single growable byte buffer whose first twelve bytes are
//! the fixed header, read and written through bit-exact accessors, and whose
//! tail holds question and answer records appended in order.  Every mutator
//! says how the new byte sequence relates to the old one, and the append
//! operations keep the header's record counts in step with what was
//! appended.

use vstd::prelude::*;
use vstd::slice::slice_subrange;
use vstd::slice::slice_to_vec;
use vstd::string::StringSliceAdditionalSpecFns;

use crate::buffer::{buf_as_slice, buf_bytes, buf_from_slice, buf_put_slice, buf_set, buf_zeroed};
use crate::parser::{
    expand_questions, parse_domains, push_range, spec_expand_answer, spec_expand_question,
    spec_expand_questions, spec_parse_domains, ParseError,
};

verus! {

/// The fixed header's size in bytes.
pub const HEADER_LENGTH: usize = 12;

/// The 16-bit big-endian value stored at bytes `at` and `at + 1`.
pub open spec fn spec_u16_at(p: Seq<u8>, at: int) -> int {
    p[at] * 256 + p[at + 1]
}

/// `p` with the 16-bit big-endian value `v` stored at bytes `at` and
/// `at + 1`.
pub open spec fn spec_set_u16_at(p: Seq<u8>, at: int, v: int) -> Seq<u8> {
    p.update(at, (v / 256) as u8).update(at + 1, (v % 256) as u8)
}

/// The message id: bytes 0 and 1, big-endian.
pub open spec fn spec_id(p: Seq<u8>) -> int {
    spec_u16_at(p, 0)
}

/// The operation code: the four bits of byte 2 that follow its top bit.
pub open spec fn spec_opcode(p: Seq<u8>) -> u8 {
    (p[2] >> 3) & 0x0F
}

/// The recursion-desired flag: the lowest bit of byte 2.
pub open spec fn spec_rd(p: Seq<u8>) -> u8 {
    p[2] & 0x01
}

/// The response code: the low four bits of byte 3.
pub open spec fn spec_rcode(p: Seq<u8>) -> u8 {
    p[3] & 0x0F
}

/// The question count: bytes 4 and 5, big-endian.
pub open spec fn spec_question_count(p: Seq<u8>) -> int {
    spec_u16_at(p, 4)
}

/// The answer count: bytes 6 and 7, big-endian.
pub open spec fn spec_answer_count(p: Seq<u8>) -> int {
    spec_u16_at(p, 6)
}

/// `p` with the query/response flag cleared: a query.
pub open spec fn spec_set_query(p: Seq<u8>) -> Seq<u8> {
    p.update(2, p[2] & 0x7F)
}

/// `p` with the query/response flag set: a response.
pub open spec fn spec_set_response(p: Seq<u8>) -> Seq<u8> {
    p.update(2, p[2] | 0x80)
}

/// `p` with the low four bits of byte 3 replaced by the low four bits of
/// `v`; the high four bits of byte 3 keep their old value.
pub open spec fn spec_set_rcode(p: Seq<u8>, v: u8) -> Seq<u8> {
    p.update(3, (p[3] & 0xF0) | (v & 0x0F))
}

/// `p` with `q` appended and the question count one higher.
pub open spec fn spec_add_question(p: Seq<u8>, q: Seq<u8>) -> Seq<u8> {
    spec_set_u16_at(p + q, 4, spec_question_count(p) + 1)
}

/// `p` with `a` appended and the answer count one higher.
pub open spec fn spec_add_answer(p: Seq<u8>, a: Seq<u8>) -> Seq<u8> {
    spec_set_u16_at(p + a, 6, spec_answer_count(p) + 1)
}

/// The wire form of an answer record built from a question's bytes: the
/// question, four bytes of time-to-live, the two-byte big-endian data
/// length, then the data.
pub open spec fn spec_answer_record(q: Seq<u8>, ttl: u32, data: Seq<u8>) -> Seq<u8> {
    q + seq![
        (ttl >> 24) as u8,
        (ttl >> 16) as u8,
        (ttl >> 8) as u8,
        ttl as u8,
        (data.len() as int / 256) as u8,
        (data.len() as int % 256) as u8,
    ] + data
}

/// The labels gathered from a dotted name, reading `s` from position `o`
/// with `cur` the chunk gathered so far: the bytes of each non-empty chunk
/// between dots, in order.
pub open spec fn spec_labels_acc(s: Seq<u8>, o: int, cur: Seq<u8>) -> Seq<Seq<u8>>
    decreases s.len() - o,
{
    if o < 0 || o >= s.len() {
        if cur.len() == 0 {
            Seq::empty()
        } else {
            seq![cur]
        }
    } else if s[o] == 46 {
        if cur.len() == 0 {
            spec_labels_acc(s, o + 1, Seq::empty())
        } else {
            seq![cur] + spec_labels_acc(s, o + 1, Seq::empty())
        }
    } else {
        spec_labels_acc(s, o + 1, cur.push(s[o]))
    }
}

/// The labels of a dotted name: the bytes of each non-empty chunk between
/// dots, in order.
pub open spec fn spec_name_labels(s: Seq<u8>) -> Seq<Seq<u8>> {
    spec_labels_acc(s, 0, Seq::empty())
}

/// Every label fits the six-bit length field of the wire form.
pub open spec fn spec_labels_valid(labels: Seq<Seq<u8>>) -> bool {
    forall|j: int| 0 <= j < labels.len() ==> (#[trigger] labels[j]).len() <= 63
}

/// The wire encoding of a list of labels: each label's length byte, then
/// its bytes, in order.
pub open spec fn spec_encode_labels(labels: Seq<Seq<u8>>) -> Seq<u8>
    decreases labels.len(),
{
    if labels.len() == 0 {
        Seq::empty()
    } else {
        seq![labels[0].len() as u8] + labels[0] + spec_encode_labels(labels.drop_first())
    }
}

/// The wire encoding of a dotted name: its labels, then the terminator.
pub open spec fn spec_encode_name(s: Seq<u8>) -> Seq<u8> {
    spec_encode_labels(spec_name_labels(s)) + seq![0u8]
}

proof fn lemma_encode_labels_snoc(labels: Seq<Seq<u8>>, l: Seq<u8>)
    ensures
        spec_encode_labels(labels.push(l)) == spec_encode_labels(labels) + seq![l.len() as u8] + l,
    decreases labels.len(),
{
    if labels.len() == 0 {
        assert(labels.push(l)[0] == l);
        assert(labels.push(l).drop_first() =~= Seq::<Seq<u8>>::empty());
        assert(spec_encode_labels(labels.push(l).drop_first()) == Seq::<u8>::empty());
        assert(spec_encode_labels(labels.push(l)) =~= spec_encode_labels(labels) + seq![
            l.len() as u8,
        ] + l);
    } else {
        assert(labels.push(l)[0] == labels[0]);
        assert(labels.push(l).drop_first() =~= labels.drop_first().push(l));
        lemma_encode_labels_snoc(labels.drop_first(), l);
        assert(spec_encode_labels(labels.push(l)) =~= spec_encode_labels(labels) + seq![
            l.len() as u8,
        ] + l);
    }
}

proof fn lemma_acc_first_label_long(s: Seq<u8>, o: int, cur: Seq<u8>)
    requires
        0 <= o < s.len(),
        s[o] != 46,
    ensures
        spec_labels_acc(s, o, cur).len() >= 1,
        spec_labels_acc(s, o, cur)[0].len() >= cur.len() + 1,
    decreases s.len() - o,
{
    let c2 = cur.push(s[o]);
    if o + 1 >= s.len() {
        assert(spec_labels_acc(s, o + 1, c2) == seq![c2]);
    } else if s[o + 1] == 46 {
        assert(spec_labels_acc(s, o + 1, c2) == seq![c2] + spec_labels_acc(
            s,
            o + 2,
            Seq::empty(),
        ));
        assert(spec_labels_acc(s, o + 1, c2)[0] == c2);
    } else {
        lemma_acc_first_label_long(s, o + 1, c2);
    }
}

/// Encodes a dotted name into length-prefixed labels followed by the
/// terminator.  Empty chunks between dots are dropped.  The call fails, and
/// encodes nothing, exactly when some label is longer than the 63 bytes the
/// six-bit length field can carry.
pub fn encode_domain(name: &str) -> (r: Option<Vec<u8>>)
    ensures
        match r {
            Some(v) => spec_labels_valid(spec_name_labels(name.spec_bytes())) && v@
                == spec_encode_name(name.spec_bytes()),
            None => !spec_labels_valid(spec_name_labels(name.spec_bytes())),
        },
{
    let bytes = name.as_bytes();
    let ghost s = name.spec_bytes();
    let mut out: Vec<u8> = Vec::new();
    let mut cur: Vec<u8> = Vec::new();
    let ghost mut done: Seq<Seq<u8>> = Seq::empty();
    let mut o: usize = 0;
    proof {
        assert(Seq::<Seq<u8>>::empty() + spec_labels_acc(s, 0, Seq::<u8>::empty())
            =~= spec_labels_acc(s, 0, Seq::<u8>::empty()));
    }
    while o < bytes.len()
        invariant
            bytes@ == s,
            s == name.spec_bytes(),
            o <= s.len(),
            cur@.len() <= 63,
            spec_name_labels(s) == done + spec_labels_acc(s, o as int, cur@),
            out@ == spec_encode_labels(done),
            spec_labels_valid(done),
        decreases s.len() - o,
    {
        let b = bytes[o];
        if b == 46 {
            if cur.len() > 0 {
                out.push(cur.len() as u8);
                push_range(&mut out, cur.as_slice(), 0, cur.len());
                proof {
                    lemma_encode_labels_snoc(done, cur@);
                    assert(out@ =~= spec_encode_labels(done.push(cur@)));
                    let ghost done_before = done;
                    done = done.push(cur@);
                    assert(done =~= done_before + seq![cur@]);
                    assert((done_before + seq![cur@]) + spec_labels_acc(
                        s,
                        o + 1,
                        Seq::<u8>::empty(),
                    ) =~= done_before + (seq![cur@] + spec_labels_acc(s, o + 1, Seq::<u8>::empty())));
                }
                cur.clear();
            } else {
                proof {
                    assert(cur@ =~= Seq::<u8>::empty());
                    assert(spec_labels_acc(s, o as int, cur@) == spec_labels_acc(
                        s,
                        o + 1,
                        Seq::<u8>::empty(),
                    ));
                }
            }
        } else {
            if cur.len() >= 63 {
                proof {
                    lemma_acc_first_label_long(s, o as int, cur@);
                    let labels = spec_name_labels(s);
                    assert(labels[done.len() as int].len() >= 64);
                }
                return None;
            }
            let ghost cur_before = cur@;
            cur.push(b);
            proof {
                assert(spec_labels_acc(s, o as int, cur_before) == spec_labels_acc(
                    s,
                    o + 1,
                    cur_before.push(s[o as int]),
                ));
            }
        }
        o = o + 1;
    }
    if cur.len() > 0 {
        out.push(cur.len() as u8);
        push_range(&mut out, cur.as_slice(), 0, cur.len());
        proof {
            lemma_encode_labels_snoc(done, cur@);
            assert(out@ =~= spec_encode_labels(done.push(cur@)));
            let ghost done_before = done;
            done = done.push(cur@);
            assert(done =~= done_before + seq![cur@]);
        }
    } else {
        proof {
            assert(done + Seq::<Seq<u8>>::empty() =~= done);
        }
    }
    let ghost out_before = out@;
    out.push(0);
    proof {
        assert(spec_name_labels(s) =~= done);
        assert(out@ =~= out_before + seq![0u8]);
        assert(out@ == spec_encode_name(s));
    }
    Some(out)
}

/// A protocol message held as one contiguous packet buffer.
pub struct Message {
    buf: bytes::BytesMut,
}

impl View for Message {
    type V = Seq<u8>;

    closed spec fn view(&self) -> Seq<u8> {
        buf_bytes(self.buf)
    }
}

impl Message {
    /// A message is usable once it holds at least the fixed header.
    pub open spec fn wf(&self) -> bool {
        self@.len() >= HEADER_LENGTH
    }

    /// A fresh message: a zeroed header and nothing else.
    pub fn new() -> (r: Message)
        ensures
            r@ == Seq::new(HEADER_LENGTH as nat, |j: int| 0u8),
            r.wf(),
    {
        Message { buf: buf_zeroed(HEADER_LENGTH) }
    }

    /// A message holding a copy of the given bytes.
    pub fn from(data: &[u8]) -> (r: Message)
        ensures
            r@ == data@,
    {
        Message { buf: buf_from_slice(data) }
    }

    /// A borrow of the whole packet's bytes.
    pub fn as_bytes(&self) -> (r: &[u8])
        ensures
            r@ == self@,
    {
        buf_as_slice(&self.buf)
    }

    /// A copy of the whole packet's bytes.
    pub fn to_vec(&self) -> (r: Vec<u8>)
        ensures
            r@ == self@,
    {
        slice_to_vec(buf_as_slice(&self.buf))
    }

    /// The message id.
    pub fn id(&self) -> (r: u16)
        requires
            self.wf(),
        ensures
            r == spec_id(self@),
    {
        let s = buf_as_slice(&self.buf);
        (s[0] as u16) * 256 + (s[1] as u16)
    }

    /// Stores `id` at bytes 0 and 1, big-endian.
    pub fn set_id(&mut self, id: u16)
        requires
            old(self).wf(),
        ensures
            final(self)@ == spec_set_u16_at(old(self)@, 0, id as int),
    {
        buf_set(&mut self.buf, 0, (id / 256) as u8);
        buf_set(&mut self.buf, 1, (id % 256) as u8);
    }

    /// Clears the query/response flag: the message is a query.
    pub fn set_query(&mut self)
        requires
            old(self).wf(),
        ensures
            final(self)@ == spec_set_query(old(self)@),
    {
        let s = buf_as_slice(&self.buf);
        let b = s[2];
        buf_set(&mut self.buf, 2, b & 0x7F);
    }

    /// Sets the query/response flag: the message is a response.
    pub fn set_response(&mut self)
        requires
            old(self).wf(),
        ensures
            final(self)@ == spec_set_response(old(self)@),
    {
        let s = buf_as_slice(&self.buf);
        let b = s[2];
        buf_set(&mut self.buf, 2, b | 0x80);
    }

    /// The operation code: the four bits of byte 2 after its top bit.
    pub fn opcode(&self) -> (r: u8)
        requires
            self.wf(),
        ensures
            r == spec_opcode(self@),
    {
        let s = buf_as_slice(&self.buf);
        let b = s[2];
        proof {
            assert((b << 1) >> 4 == (b >> 3) & 0x0F) by (bit_vector);
        }
        (b << 1) >> 4
    }

    /// The recursion-desired flag: the lowest bit of byte 2.
    pub fn rd(&self) -> (r: u8)
        requires
            self.wf(),
        ensures
            r == spec_rd(self@),
    {
        let s = buf_as_slice(&self.buf);
        s[2] & 0x01
    }

    /// The response code: the low four bits of byte 3.
    pub fn rcode(&self) -> (r: u8)
        requires
            self.wf(),
        ensures
            r == spec_rcode(self@),
    {
        let s = buf_as_slice(&self.buf);
        s[3] & 0x0F
    }

    /// Replaces the low four bits of byte 3 with the low four bits of
    /// `rcode`; the high four bits keep their old value.
    pub fn set_rcode(&mut self, rcode: u8)
        requires
            old(self).wf(),
        ensures
            final(self)@ == spec_set_rcode(old(self)@, rcode),
    {
        let s = buf_as_slice(&self.buf);
        let b = s[3];
        buf_set(&mut self.buf, 3, (b & 0xF0) | (rcode & 0x0F));
    }

    /// The question count.
    pub fn question_count(&self) -> (r: u16)
        requires
            self.wf(),
        ensures
            r == spec_question_count(self@),
    {
        let s = buf_as_slice(&self.buf);
        (s[4] as u16) * 256 + (s[5] as u16)
    }

    /// Stores `count` as the question count.
    pub fn set_question_count(&mut self, count: u16)
        requires
            old(self).wf(),
        ensures
            final(self)@ == spec_set_u16_at(old(self)@, 4, count as int),
    {
        buf_set(&mut self.buf, 4, (count / 256) as u8);
        buf_set(&mut self.buf, 5, (count % 256) as u8);
    }

    /// The answer count.
    pub fn answer_count(&self) -> (r: u16)
        requires
            self.wf(),
        ensures
            r == spec_answer_count(self@),
    {
        let s = buf_as_slice(&self.buf);
        (s[6] as u16) * 256 + (s[7] as u16)
    }

    /// Stores `count` as the answer count.
    pub fn set_answer_count(&mut self, count: u16)
        requires
            old(self).wf(),
        ensures
            final(self)@ == spec_set_u16_at(old(self)@, 6, count as int),
    {
        buf_set(&mut self.buf, 6, (count / 256) as u8);
        buf_set(&mut self.buf, 7, (count % 256) as u8);
    }

    /// The raw wire bytes of each of the first `question_count` records
    /// after the header, compression tokens left as they stand.
    pub fn original_questions(&self) -> (r: Result<Vec<Vec<u8>>, ParseError>)
        requires
            self.wf(),
        ensures
            ({
                let parsed = spec_parse_domains(
                    self@.subrange(HEADER_LENGTH as int, self@.len() as int),
                    0,
                    spec_question_count(self@) as nat,
                );
                match r {
                    Ok(v) => parsed matches Ok(t) && t.1 == v.deep_view(),
                    Err(err) => parsed == Err::<(int, Seq<Seq<u8>>), ParseError>(err),
                }
            }),
    {
        let s = buf_as_slice(&self.buf);
        let cnt = self.question_count();
        let tail = slice_subrange(s, HEADER_LENGTH, s.len());
        match parse_domains(tail, cnt as usize) {
            Ok((_, v)) => Ok(v),
            Err(err) => Err(err),
        }
    }

    /// The same scan as `original_questions`, under the name the early
    /// assembler used.
    pub fn questions(&self) -> (r: Result<Vec<Vec<u8>>, ParseError>)
        requires
            self.wf(),
        ensures
            ({
                let parsed = spec_parse_domains(
                    self@.subrange(HEADER_LENGTH as int, self@.len() as int),
                    0,
                    spec_question_count(self@) as nat,
                );
                match r {
                    Ok(v) => parsed matches Ok(t) && t.1 == v.deep_view(),
                    Err(err) => parsed == Err::<(int, Seq<Seq<u8>>), ParseError>(err),
                }
            }),
    {
        self.original_questions()
    }

    /// The expanded wire form of each of the first `question_count`
    /// questions after the header: every compression pointer is replaced by
    /// the labels it stands for.
    pub fn expanded_questions(&self) -> (r: Result<Vec<Vec<u8>>, ParseError>)
        requires
            self.wf(),
        ensures
            ({
                let expanded = spec_expand_questions(
                    self@,
                    HEADER_LENGTH as int,
                    spec_question_count(self@) as nat,
                );
                match r {
                    Ok(v) => expanded == Ok::<Seq<Seq<u8>>, ParseError>(v.deep_view()),
                    Err(err) => expanded == Err::<Seq<Seq<u8>>, ParseError>(err),
                }
            }),
    {
        let s = buf_as_slice(&self.buf);
        let cnt = self.question_count();
        expand_questions(s, HEADER_LENGTH, cnt as usize)
    }

    /// Appends a question's wire bytes and raises the question count by
    /// one.  Questions may only be appended while the message holds no
    /// answers, so that all questions precede all answers.
    pub fn add_question(&mut self, question: &[u8])
        requires
            old(self).wf(),
            spec_answer_count(old(self)@) == 0,
            spec_question_count(old(self)@) < 0xFFFF,
        ensures
            final(self)@ == spec_add_question(old(self)@, question@),
    {
        let c = self.question_count();
        buf_put_slice(&mut self.buf, question);
        self.set_question_count(c + 1);
    }

    /// Appends an answer's wire bytes and raises the answer count by one.
    pub fn add_answer(&mut self, answer: &[u8])
        requires
            old(self).wf(),
            spec_answer_count(old(self)@) < 0xFFFF,
        ensures
            final(self)@ == spec_add_answer(old(self)@, answer@),
    {
        let c = self.answer_count();
        buf_put_slice(&mut self.buf, answer);
        self.set_answer_count(c + 1);
    }

    /// Appends a synthesized answer record — the question's bytes, then
    /// time-to-live, data length and data — and raises the answer count by
    /// one.
    pub fn answer_question(&mut self, question: &[u8], ttl: u32, data: &[u8])
        requires
            old(self).wf(),
            spec_answer_count(old(self)@) < 0xFFFF,
            data@.len() <= 0xFFFF,
        ensures
            final(self)@ == spec_add_answer(
                old(self)@,
                spec_answer_record(question@, ttl, data@),
            ),
    {
        let mut rec: Vec<u8> = Vec::new();
        push_range(&mut rec, question, 0, question.len());
        rec.push((ttl >> 24) as u8);
        rec.push((ttl >> 16) as u8);
        rec.push((ttl >> 8) as u8);
        rec.push(ttl as u8);
        rec.push((data.len() / 256) as u8);
        rec.push((data.len() % 256) as u8);
        push_range(&mut rec, data, 0, data.len());
        proof {
            assert(rec@ =~= spec_answer_record(question@, ttl, data@));
        }
        self.add_answer(rec.as_slice());
    }

    /// Marks the message as a response and sets its response code from its
    /// operation code: zero for the plain query code, four — "not
    /// implemented" — for any other.
    pub fn finalize_response(&mut self)
        requires
            old(self).wf(),
        ensures
            final(self)@ == spec_set_rcode(
                spec_set_response(old(self)@),
                if spec_opcode(old(self)@) == 0 {
                    0u8
                } else {
                    4u8
                },
            ),
    {
        let ghost b = self@[2];
        self.set_response();
        proof {
            assert((((b | 0x80) >> 3) & 0x0F) == ((b >> 3) & 0x0F)) by (bit_vector);
        }
        let op = self.opcode();
        if op == 0 {
            self.set_rcode(0);
        } else {
            self.set_rcode(4);
        }
    }
}

/// The sub-packet sent upstream for one question: a copy of the original
/// twelve-byte header with its question count cleared, then the one
/// question appended.
pub fn forward_query(header: &[u8], question: &[u8]) -> (r: Message)
    requires
        header@.len() == 12,
        spec_answer_count(header@) == 0,
    ensures
        r@ == spec_add_question(spec_set_u16_at(header@, 4, 0), question@),
        r.wf(),
{
    let mut m = Message::from(header);
    m.set_question_count(0);
    m.add_question(question);
    m
}

/// What an upstream reply must yield: the expansion of its single question,
/// then the expansion of the single answer that follows it.  `Ok` holds the
/// answer's expanded wire bytes.
pub open spec fn spec_forwarded_answer(p: Seq<u8>) -> Result<Seq<u8>, ParseError> {
    match spec_expand_question(p, HEADER_LENGTH as int) {
        Err(e) => Err(e),
        Ok((e, q)) => match spec_expand_answer(p, e) {
            Err(e2) => Err(e2),
            Ok((fin, a)) => Ok(a),
        },
    }
}

/// Pulls the single answer out of an upstream reply datagram: the question
/// after the reply's header is skipped, and the answer record after it is
/// expanded.
pub fn extract_forwarded_answer(reply: &[u8]) -> (r: Result<Vec<u8>, ParseError>)
    ensures
        match r {
            Ok(v) => spec_forwarded_answer(reply@) == Ok::<Seq<u8>, ParseError>(v@),
            Err(err) => spec_forwarded_answer(reply@) == Err::<Seq<u8>, ParseError>(err),
        },
{
    let (q_end, _question) = match crate::parser::expand_question(reply, HEADER_LENGTH) {
        Ok(t) => t,
        Err(err) => {
            return Err(err);
        },
    };
    match crate::parser::expand_answer(reply, q_end) {
        Ok((_, answer)) => Ok(answer),
        Err(err) => Err(err),
    }
}

} // verus!
