//! The byte-level grammar of the wire format: domain-name tokens (labels,
//! terminators, compression pointers), whole-name traversal, and pointer
//! expansion.  Every function states exactly, over the packet's byte
//! sequence, on which inputs it succeeds, what it returns, and which error it
//! reports otherwise.

use vstd::prelude::*;
use vstd::slice::{slice_subrange, slice_to_vec};

verus! {

/// Why a decode step could not make progress.
#[derive(Clone, Copy, Debug, PartialEq, Eq, Structural)]
pub enum ParseError {
    /// The input ended before the token or field being read was complete.
    Incomplete,
    /// A byte did not have the shape of any supported token at its position.
    BadToken,
    /// More compression pointers were followed than the codec allows, which
    /// makes a pointer cycle in the packet likely.
    TooManyPointers,
}

/// One token of a domain name in wire form.
#[derive(Clone, Debug, PartialEq)]
pub enum DomainPart {
    /// A two-byte back-reference; the payload is the absolute target offset.
    Pointer(usize),
    /// One length-prefixed segment; the payload is the segment's bytes,
    /// without the length byte.
    Label(Vec<u8>),
    /// The single zero byte that ends an uncompressed name.
    Terminator,
}

/// A label token starts with a byte whose top two bits are `00`.
pub open spec fn is_label_byte(b: u8) -> bool {
    b & 0xC0 == 0x00
}

/// A pointer token starts with a byte whose top two bits are `11`.
pub open spec fn is_pointer_byte(b: u8) -> bool {
    b & 0xC0 == 0xC0
}

/// The absolute offset packed into a pointer's two bytes: the low six bits of
/// the first byte, then the whole second byte, big-endian.
pub open spec fn spec_pointer_target(b0: u8, b1: u8) -> int {
    (b0 & 0x3F) * 256 + b1
}

/// How many compression pointers one name may follow before expansion gives
/// up.  A packet whose pointers form a cycle would otherwise never finish.
pub const POINTER_LIMIT: usize = 128;

/// Reads the label token at the start of `i`: a `00`-topped length byte, then
/// that many bytes of segment data.  Returns how many bytes the token took
/// and the segment's bytes.
pub fn parse_label(i: &[u8]) -> (r: Result<(usize, DomainPart), ParseError>)
    ensures
        match r {
            Ok((n, part)) => {
                &&& i@.len() >= 1
                &&& is_label_byte(i@[0])
                &&& n == 1 + i@[0]
                &&& n <= i@.len()
                &&& (part matches DomainPart::Label(l) && l@ == i@.subrange(1, n as int))
            },
            Err(ParseError::Incomplete) => i@.len() == 0 || (is_label_byte(i@[0]) && 1 + i@[0]
                > i@.len()),
            Err(ParseError::BadToken) => i@.len() >= 1 && !is_label_byte(i@[0]),
            Err(ParseError::TooManyPointers) => false,
        },
{
    if i.len() == 0 {
        return Err(ParseError::Incomplete);
    }
    let b = i[0];
    if b & 0xC0 != 0x00 {
        return Err(ParseError::BadToken);
    }
    let len = b as usize;
    if len >= i.len() {
        return Err(ParseError::Incomplete);
    }
    let data = slice_to_vec(slice_subrange(i, 1, 1 + len));
    Ok((1 + len, DomainPart::Label(data)))
}

/// Reads the terminator token at the start of `i`: the single zero byte.
pub fn parse_terminator(i: &[u8]) -> (r: Result<(usize, DomainPart), ParseError>)
    ensures
        match r {
            Ok((n, part)) => {
                &&& i@.len() >= 1
                &&& i@[0] == 0
                &&& n == 1
                &&& part == DomainPart::Terminator
            },
            Err(ParseError::Incomplete) => i@.len() == 0,
            Err(ParseError::BadToken) => i@.len() >= 1 && i@[0] != 0,
            Err(ParseError::TooManyPointers) => false,
        },
{
    if i.len() == 0 {
        return Err(ParseError::Incomplete);
    }
    if i[0] != 0 {
        return Err(ParseError::BadToken);
    }
    Ok((1, DomainPart::Terminator))
}

/// Reads the pointer token at the start of `i`: a `11`-topped byte and one
/// more byte, holding a 14-bit absolute offset.
pub fn parse_pointer(i: &[u8]) -> (r: Result<(usize, DomainPart), ParseError>)
    ensures
        match r {
            Ok((n, part)) => {
                &&& i@.len() >= 2
                &&& is_pointer_byte(i@[0])
                &&& n == 2
                &&& (part matches DomainPart::Pointer(t) && t == spec_pointer_target(
                    i@[0],
                    i@[1],
                ))
            },
            Err(ParseError::Incomplete) => i@.len() == 0 || (is_pointer_byte(i@[0]) && i@.len()
                < 2),
            Err(ParseError::BadToken) => i@.len() >= 1 && !is_pointer_byte(i@[0]),
            Err(ParseError::TooManyPointers) => false,
        },
{
    if i.len() == 0 {
        return Err(ParseError::Incomplete);
    }
    let b0 = i[0];
    if b0 & 0xC0 != 0xC0 {
        return Err(ParseError::BadToken);
    }
    if i.len() < 2 {
        return Err(ParseError::Incomplete);
    }
    let b1 = i[1];
    let target = ((b0 & 0x3F) as usize) * 256 + (b1 as usize);
    Ok((2, DomainPart::Pointer(target)))
}

/// Where the name that starts at offset `o` of `p` ends, without following
/// pointers: labels are skipped, and the name ends one byte after its
/// terminator or two bytes after the first pointer.  `Ok(e)` is the offset of
/// the first byte after the name.
pub open spec fn spec_name_end(p: Seq<u8>, o: int) -> Result<int, ParseError>
    decreases p.len() - o,
{
    if o < 0 || o >= p.len() {
        Err(ParseError::Incomplete)
    } else if p[o] == 0 {
        Ok(o + 1)
    } else if is_pointer_byte(p[o]) {
        if o + 2 <= p.len() {
            Ok(o + 2)
        } else {
            Err(ParseError::Incomplete)
        }
    } else if is_label_byte(p[o]) {
        if o + 1 + p[o] <= p.len() {
            spec_name_end(p, o + 1 + p[o])
        } else {
            Err(ParseError::Incomplete)
        }
    } else {
        Err(ParseError::BadToken)
    }
}

/// Walks the name at offset `offset` of `i` without following pointers and
/// returns the offset of the first byte after it.
pub(crate) fn name_end(i: &[u8], offset: usize) -> (r: Result<usize, ParseError>)
    ensures
        match r {
            Ok(e) => spec_name_end(i@, offset as int) == Ok::<int, ParseError>(e as int),
            Err(err) => spec_name_end(i@, offset as int) == Err::<int, ParseError>(err),
        },
{
    let mut cur: usize = offset;
    loop
        invariant
            spec_name_end(i@, offset as int) == spec_name_end(i@, cur as int),
        decreases i@.len() - cur,
    {
        if cur >= i.len() {
            return Err(ParseError::Incomplete);
        }
        let b = i[cur];
        if b == 0 {
            return Ok(cur + 1);
        }
        if b & 0xC0 == 0xC0 {
            if i.len() - cur >= 2 {
                return Ok(cur + 2);
            }
            return Err(ParseError::Incomplete);
        }
        if b & 0xC0 == 0x00 {
            let len = b as usize;
            if len < i.len() - cur {
                cur = cur + 1 + len;
            } else {
                return Err(ParseError::Incomplete);
            }
        } else {
            return Err(ParseError::BadToken);
        }
    }
}

/// Appends the bytes `i[from..to]` to `out`.
pub(crate) fn push_range(out: &mut Vec<u8>, i: &[u8], from: usize, to: usize)
    requires
        from <= to <= i@.len(),
    ensures
        final(out)@ == old(out)@ + i@.subrange(from as int, to as int),
{
    let mut k: usize = from;
    proof {
        assert(out@ =~= out@ + i@.subrange(from as int, from as int));
    }
    while k < to
        invariant
            from <= k <= to <= i@.len(),
            out@ == old(out)@ + i@.subrange(from as int, k as int),
        decreases to - k,
    {
        out.push(i[k]);
        proof {
            assert(out@ =~= old(out)@ + i@.subrange(from as int, k + 1));
        }
        k = k + 1;
    }
}

/// A name walk that succeeds ends after its start and within the packet.
pub proof fn lemma_name_end_bounds(p: Seq<u8>, o: int)
    ensures
        spec_name_end(p, o) matches Ok(e) ==> o < e && e <= p.len(),
    decreases p.len() - o,
{
    if 0 <= o && o < p.len() && p[o] != 0 && !is_pointer_byte(p[o]) && is_label_byte(p[o]) && o + 1
        + p[o] <= p.len() {
        lemma_name_end_bounds(p, o + 1 + p[o]);
    }
}

/// The fully expanded form of the name at offset `o` of `p`: each label is
/// kept as its length byte followed by its bytes, every pointer is replaced
/// by the expansion of the name at its target, and the single terminator that
/// ends the spelled-out name is kept.  `fuel` bounds how many pointers may
/// still be followed; when it runs out the packet's pointers are treated as
/// cyclic and expansion fails.
pub open spec fn spec_expand_name(p: Seq<u8>, o: int, fuel: nat) -> Result<Seq<u8>, ParseError>
    decreases fuel, p.len() - o,
{
    if o < 0 || o >= p.len() {
        Err(ParseError::Incomplete)
    } else if p[o] == 0 {
        Ok(seq![0u8])
    } else if is_pointer_byte(p[o]) {
        if o + 2 > p.len() {
            Err(ParseError::Incomplete)
        } else if fuel == 0 {
            Err(ParseError::TooManyPointers)
        } else if spec_pointer_target(p[o], p[o + 1]) >= p.len() {
            Err(ParseError::Incomplete)
        } else {
            spec_expand_name(p, spec_pointer_target(p[o], p[o + 1]), (fuel - 1) as nat)
        }
    } else if is_label_byte(p[o]) {
        if o + 1 + p[o] > p.len() {
            Err(ParseError::Incomplete)
        } else {
            match spec_expand_name(p, o + 1 + p[o], fuel) {
                Ok(rest) => Ok(p.subrange(o, o + 1 + p[o]) + rest),
                Err(e) => Err(e),
            }
        }
    } else {
        Err(ParseError::BadToken)
    }
}

/// Expands the name at offset `offset` of `i`, replacing every compression
/// pointer by the labels it stands for, and returns the flattened
/// label-and-terminator bytes.  At most `POINTER_LIMIT` pointers are
/// followed, so a pointer cycle is reported instead of looping.
pub fn expand_name(i: &[u8], offset: usize) -> (r: Result<Vec<u8>, ParseError>)
    ensures
        match r {
            Ok(v) => spec_expand_name(i@, offset as int, POINTER_LIMIT as nat) == Ok::<
                Seq<u8>,
                ParseError,
            >(v@),
            Err(err) => spec_expand_name(i@, offset as int, POINTER_LIMIT as nat) == Err::<
                Seq<u8>,
                ParseError,
            >(err),
        },
{
    if offset >= i.len() {
        return Err(ParseError::Incomplete);
    }
    let mut acc: Vec<u8> = Vec::new();
    let mut cur: usize = offset;
    let mut fuel: usize = POINTER_LIMIT;
    proof {
        let r0 = spec_expand_name(i@, offset as int, POINTER_LIMIT as nat);
        if r0 is Ok {
            assert(Seq::<u8>::empty() + r0->Ok_0 =~= r0->Ok_0);
        }
    }
    loop
        invariant
            cur <= i@.len(),
            spec_expand_name(i@, offset as int, POINTER_LIMIT as nat) == (match spec_expand_name(
                i@,
                cur as int,
                fuel as nat,
            ) {
                Ok(s) => Ok::<Seq<u8>, ParseError>(acc@ + s),
                Err(e) => Err::<Seq<u8>, ParseError>(e),
            }),
        decreases fuel, i@.len() - cur,
    {
        if cur >= i.len() {
            return Err(ParseError::Incomplete);
        }
        let b = i[cur];
        if b == 0 {
            let ghost acc_before = acc@;
            acc.push(0);
            proof {
                assert(acc@ =~= acc_before + seq![0u8]);
            }
            return Ok(acc);
        }
        if b & 0xC0 == 0xC0 {
            if i.len() - cur < 2 {
                return Err(ParseError::Incomplete);
            }
            let b1 = i[cur + 1];
            if fuel == 0 {
                return Err(ParseError::TooManyPointers);
            }
            let target = ((b & 0x3F) as usize) * 256 + (b1 as usize);
            if target >= i.len() {
                return Err(ParseError::Incomplete);
            }
            fuel = fuel - 1;
            cur = target;
        } else if b & 0xC0 == 0x00 {
            let len = b as usize;
            if !(len < i.len() - cur) {
                return Err(ParseError::Incomplete);
            }
            let ghost acc_before = acc@;
            push_range(&mut acc, i, cur, cur + 1 + len);
            proof {
                let sub = i@.subrange(cur as int, cur + 1 + len);
                let tail = spec_expand_name(i@, cur + 1 + len, fuel as nat);
                if tail is Ok {
                    assert((acc_before + sub) + tail->Ok_0 =~= acc_before + (sub + tail->Ok_0));
                }
            }
            cur = cur + 1 + len;
        } else {
            return Err(ParseError::BadToken);
        }
    }
}

/// A question is a (possibly compressed) name followed by the four bytes of
/// record type and class.  `Ok((e, q))` gives the offset `e` of the first
/// byte after the question's wire form and the expanded question `q`: the
/// flattened name followed by those same four bytes.
pub open spec fn spec_expand_question(p: Seq<u8>, o: int) -> Result<(int, Seq<u8>), ParseError> {
    match spec_expand_name(p, o, POINTER_LIMIT as nat) {
        Err(e) => Err(e),
        Ok(name) => match spec_name_end(p, o) {
            Err(e) => Err(e),
            Ok(e) => if e + 4 <= p.len() {
                Ok((e + 4, name + p.subrange(e, e + 4)))
            } else {
                Err(ParseError::Incomplete)
            },
        },
    }
}

/// Expands the question at offset `offset` of `i`: the flattened name plus
/// the four type/class bytes that follow the name's wire form at its
/// original position.  Returns the offset just past the question as well.
pub fn expand_question(i: &[u8], offset: usize) -> (r: Result<(usize, Vec<u8>), ParseError>)
    ensures
        match r {
            Ok((n, v)) => spec_expand_question(i@, offset as int) == Ok::<
                (int, Seq<u8>),
                ParseError,
            >((n as int, v@)),
            Err(err) => spec_expand_question(i@, offset as int) == Err::<
                (int, Seq<u8>),
                ParseError,
            >(err),
        },
{
    let mut name = match expand_name(i, offset) {
        Ok(v) => v,
        Err(e) => {
            return Err(e);
        },
    };
    let e = match name_end(i, offset) {
        Ok(e) => e,
        Err(err) => {
            return Err(err);
        },
    };
    proof {
        lemma_name_end_bounds(i@, offset as int);
    }
    if i.len() - e < 4 {
        return Err(ParseError::Incomplete);
    }
    push_range(&mut name, i, e, e + 4);
    Ok((e + 4, name))
}

/// An answer is a question followed by four bytes of time-to-live, a
/// two-byte big-endian data length, and that many bytes of data.  `Ok((e,
/// a))` gives the offset just past the answer and the expanded answer: the
/// expanded question followed by those trailing bytes verbatim.
pub open spec fn spec_expand_answer(p: Seq<u8>, o: int) -> Result<(int, Seq<u8>), ParseError> {
    match spec_expand_question(p, o) {
        Err(e) => Err(e),
        Ok((q_end, q)) => if q_end + 6 <= p.len() {
            if q_end + 6 + p[q_end + 4] * 256 + p[q_end + 5] <= p.len() {
                Ok(
                    (
                        q_end + 6 + p[q_end + 4] * 256 + p[q_end + 5],
                        q + p.subrange(q_end, q_end + 6 + p[q_end + 4] * 256 + p[q_end + 5]),
                    ),
                )
            } else {
                Err(ParseError::Incomplete)
            }
        } else {
            Err(ParseError::Incomplete)
        },
    }
}

/// Expands the answer record at offset `offset` of `i`: the expanded
/// question, then time-to-live, data length and data copied verbatim.
pub fn expand_answer(i: &[u8], offset: usize) -> (r: Result<(usize, Vec<u8>), ParseError>)
    ensures
        match r {
            Ok((n, v)) => spec_expand_answer(i@, offset as int) == Ok::<
                (int, Seq<u8>),
                ParseError,
            >((n as int, v@)),
            Err(err) => spec_expand_answer(i@, offset as int) == Err::<
                (int, Seq<u8>),
                ParseError,
            >(err),
        },
{
    let (q_end, mut q) = match expand_question(i, offset) {
        Ok(t) => t,
        Err(e) => {
            return Err(e);
        },
    };
    assert(q_end <= i@.len());
    if i.len() - q_end < 6 {
        return Err(ParseError::Incomplete);
    }
    let dlen = (i[q_end + 4] as usize) * 256 + (i[q_end + 5] as usize);
    if i.len() - (q_end + 6) < dlen {
        return Err(ParseError::Incomplete);
    }
    push_range(&mut q, i, q_end, q_end + 6 + dlen);
    Ok((q_end + 6 + dlen, q))
}

/// Where a question ends when every non-zero byte is read as a plain label
/// length, with no pointer or shape check: skip length-prefixed runs until a
/// zero byte.  This is the simple scan used before compression support; it
/// only handles uncompressed names.
pub open spec fn spec_question_end(p: Seq<u8>, o: int) -> Result<int, ParseError>
    decreases p.len() - o,
{
    if o < 0 || o >= p.len() {
        Err(ParseError::Incomplete)
    } else if p[o] == 0 {
        Ok(o + 1)
    } else if o + 1 + p[o] <= p.len() {
        spec_question_end(p, o + 1 + p[o])
    } else {
        Err(ParseError::Incomplete)
    }
}

/// A simple question scan that succeeds ends after its start and within the
/// packet.
pub proof fn lemma_question_end_bounds(p: Seq<u8>, o: int)
    ensures
        spec_question_end(p, o) matches Ok(e) ==> o < e && e <= p.len(),
    decreases p.len() - o,
{
    if 0 <= o && o < p.len() && p[o] != 0 && o + 1 + p[o] <= p.len() {
        lemma_question_end_bounds(p, o + 1 + p[o]);
    }
}

pub(crate) fn question_end(i: &[u8], offset: usize) -> (r: Result<usize, ParseError>)
    ensures
        match r {
            Ok(e) => spec_question_end(i@, offset as int) == Ok::<int, ParseError>(e as int),
            Err(err) => spec_question_end(i@, offset as int) == Err::<int, ParseError>(err),
        },
{
    let mut cur: usize = offset;
    loop
        invariant
            spec_question_end(i@, offset as int) == spec_question_end(i@, cur as int),
        decreases i@.len() - cur,
    {
        if cur >= i.len() {
            return Err(ParseError::Incomplete);
        }
        let b = i[cur];
        if b == 0 {
            return Ok(cur + 1);
        }
        let len = b as usize;
        if len < i.len() - cur {
            cur = cur + 1 + len;
        } else {
            return Err(ParseError::Incomplete);
        }
    }
}

/// The end of the question at offset `o` of `p` under the simple
/// uncompressed scan: the name's length-prefixed runs up to their zero byte,
/// then four bytes of type and class.
pub open spec fn spec_parse_question(p: Seq<u8>, o: int) -> Result<int, ParseError> {
    match spec_question_end(p, o) {
        Err(e) => Err(e),
        Ok(e) => if e + 4 <= p.len() {
            Ok(e + 4)
        } else {
            Err(ParseError::Incomplete)
        },
    }
}

pub(crate) fn parse_question_at(i: &[u8], offset: usize) -> (r: Result<usize, ParseError>)
    ensures
        match r {
            Ok(e) => spec_parse_question(i@, offset as int) == Ok::<int, ParseError>(e as int),
            Err(err) => spec_parse_question(i@, offset as int) == Err::<int, ParseError>(err),
        },
{
    let e = match question_end(i, offset) {
        Ok(e) => e,
        Err(err) => {
            return Err(err);
        },
    };
    proof {
        lemma_question_end_bounds(i@, offset as int);
    }
    if i.len() - e < 4 {
        return Err(ParseError::Incomplete);
    }
    Ok(e + 4)
}

/// Reads the question at the start of `i` with the simple uncompressed scan
/// and returns its raw bytes together with the offset just past it.
pub fn parse_question(i: &[u8]) -> (r: Result<(usize, Vec<u8>), ParseError>)
    ensures
        match r {
            Ok((n, v)) => spec_parse_question(i@, 0) == Ok::<int, ParseError>(n as int) && v@
                == i@.subrange(0, n as int),
            Err(err) => spec_parse_question(i@, 0) == Err::<int, ParseError>(err),
        },
{
    let e = match parse_question_at(i, 0) {
        Ok(e) => e,
        Err(err) => {
            return Err(err);
        },
    };
    proof {
        lemma_question_end_bounds(i@, 0);
    }
    Ok((e, slice_to_vec(slice_subrange(i, 0, e))))
}

/// The end of the domain record at offset `o` of `p`: a (possibly
/// compressed) name followed by four bytes of type and class.  The record's
/// raw bytes are kept as they stand; pointers are not followed.
pub open spec fn spec_parse_domain(p: Seq<u8>, o: int) -> Result<int, ParseError> {
    match spec_name_end(p, o) {
        Err(e) => Err(e),
        Ok(e) => if e + 4 <= p.len() {
            Ok(e + 4)
        } else {
            Err(ParseError::Incomplete)
        },
    }
}

pub(crate) fn parse_domain_at(i: &[u8], offset: usize) -> (r: Result<usize, ParseError>)
    ensures
        match r {
            Ok(e) => spec_parse_domain(i@, offset as int) == Ok::<int, ParseError>(e as int),
            Err(err) => spec_parse_domain(i@, offset as int) == Err::<int, ParseError>(err),
        },
{
    let e = match name_end(i, offset) {
        Ok(e) => e,
        Err(err) => {
            return Err(err);
        },
    };
    proof {
        lemma_name_end_bounds(i@, offset as int);
    }
    if i.len() - e < 4 {
        return Err(ParseError::Incomplete);
    }
    Ok(e + 4)
}

/// Reads the domain record at the start of `i` — a name in wire form, with
/// compression tokens left as they stand, plus the four type/class bytes —
/// and returns its raw bytes together with the offset just past it.
pub fn parse_domain(i: &[u8]) -> (r: Result<(usize, Vec<u8>), ParseError>)
    ensures
        match r {
            Ok((n, v)) => spec_parse_domain(i@, 0) == Ok::<int, ParseError>(n as int) && v@
                == i@.subrange(0, n as int),
            Err(err) => spec_parse_domain(i@, 0) == Err::<int, ParseError>(err),
        },
{
    let e = match parse_domain_at(i, 0) {
        Ok(e) => e,
        Err(err) => {
            return Err(err);
        },
    };
    proof {
        lemma_name_end_bounds(i@, 0);
    }
    Ok((e, slice_to_vec(slice_subrange(i, 0, e))))
}

/// `cnt` domain records read back to back from offset `o`: the offset after
/// the last one and each record's raw bytes, in order.
pub open spec fn spec_parse_domains(p: Seq<u8>, o: int, cnt: nat) -> Result<
    (int, Seq<Seq<u8>>),
    ParseError,
>
    decreases cnt,
{
    if cnt == 0 {
        Ok((o, Seq::empty()))
    } else {
        match spec_parse_domain(p, o) {
            Err(e) => Err(e),
            Ok(e) => match spec_parse_domains(p, e, (cnt - 1) as nat) {
                Err(e2) => Err(e2),
                Ok((fin, rest)) => Ok((fin, seq![p.subrange(o, e)] + rest)),
            },
        }
    }
}

/// `cnt` questions read back to back from offset `o` with the simple
/// uncompressed scan.
pub open spec fn spec_parse_questions(p: Seq<u8>, o: int, cnt: nat) -> Result<
    (int, Seq<Seq<u8>>),
    ParseError,
>
    decreases cnt,
{
    if cnt == 0 {
        Ok((o, Seq::empty()))
    } else {
        match spec_parse_question(p, o) {
            Err(e) => Err(e),
            Ok(e) => match spec_parse_questions(p, e, (cnt - 1) as nat) {
                Err(e2) => Err(e2),
                Ok((fin, rest)) => Ok((fin, seq![p.subrange(o, e)] + rest)),
            },
        }
    }
}

/// Reads `cnt` domain records back to back from the start of `i` and
/// returns the offset just past the last one and each record's raw bytes,
/// in order.
pub fn parse_domains(i: &[u8], cnt: usize) -> (r: Result<(usize, Vec<Vec<u8>>), ParseError>)
    ensures
        match r {
            Ok((n, v)) => spec_parse_domains(i@, 0, cnt as nat) == Ok::<
                (int, Seq<Seq<u8>>),
                ParseError,
            >((n as int, v.deep_view())),
            Err(err) => spec_parse_domains(i@, 0, cnt as nat) == Err::<
                (int, Seq<Seq<u8>>),
                ParseError,
            >(err),
        },
{
    let mut out: Vec<Vec<u8>> = Vec::new();
    let mut o: usize = 0;
    let mut k: usize = cnt;
    loop
        invariant
            spec_parse_domains(i@, 0, cnt as nat) == (match spec_parse_domains(
                i@,
                o as int,
                k as nat,
            ) {
                Ok((fin, rest)) => Ok::<(int, Seq<Seq<u8>>), ParseError>(
                    (fin, out.deep_view() + rest),
                ),
                Err(e) => Err::<(int, Seq<Seq<u8>>), ParseError>(e),
            }),
        decreases k,
    {
        if k == 0 {
            proof {
                assert(out.deep_view() + Seq::<Seq<u8>>::empty() =~= out.deep_view());
            }
            return Ok((o, out));
        }
        let e = match parse_domain_at(i, o) {
            Ok(e) => e,
            Err(err) => {
                return Err(err);
            },
        };
        proof {
            lemma_name_end_bounds(i@, o as int);
        }
        let d = slice_to_vec(slice_subrange(i, o, e));
        proof {
            assert(d.deep_view() =~= i@.subrange(o as int, e as int));
        }
        let ghost done = out.deep_view();
        out.push(d);
        proof {
            assert(out.deep_view() =~= done + seq![i@.subrange(o as int, e as int)]);
            let tail = spec_parse_domains(i@, e as int, (k - 1) as nat);
            if tail is Ok {
                assert((done + seq![i@.subrange(o as int, e as int)]) + tail->Ok_0.1 =~= done + (
                seq![i@.subrange(o as int, e as int)] + tail->Ok_0.1));
            }
        }
        o = e;
        k = k - 1;
    }
}

/// Reads `cnt` questions back to back from the start of `i` with the simple
/// uncompressed scan and returns the offset just past the last one and each
/// question's raw bytes, in order.
pub fn parse_questions(i: &[u8], cnt: usize) -> (r: Result<(usize, Vec<Vec<u8>>), ParseError>)
    ensures
        match r {
            Ok((n, v)) => spec_parse_questions(i@, 0, cnt as nat) == Ok::<
                (int, Seq<Seq<u8>>),
                ParseError,
            >((n as int, v.deep_view())),
            Err(err) => spec_parse_questions(i@, 0, cnt as nat) == Err::<
                (int, Seq<Seq<u8>>),
                ParseError,
            >(err),
        },
{
    let mut out: Vec<Vec<u8>> = Vec::new();
    let mut o: usize = 0;
    let mut k: usize = cnt;
    loop
        invariant
            spec_parse_questions(i@, 0, cnt as nat) == (match spec_parse_questions(
                i@,
                o as int,
                k as nat,
            ) {
                Ok((fin, rest)) => Ok::<(int, Seq<Seq<u8>>), ParseError>(
                    (fin, out.deep_view() + rest),
                ),
                Err(e) => Err::<(int, Seq<Seq<u8>>), ParseError>(e),
            }),
        decreases k,
    {
        if k == 0 {
            proof {
                assert(out.deep_view() + Seq::<Seq<u8>>::empty() =~= out.deep_view());
            }
            return Ok((o, out));
        }
        let e = match parse_question_at(i, o) {
            Ok(e) => e,
            Err(err) => {
                return Err(err);
            },
        };
        proof {
            lemma_question_end_bounds(i@, o as int);
        }
        let d = slice_to_vec(slice_subrange(i, o, e));
        proof {
            assert(d.deep_view() =~= i@.subrange(o as int, e as int));
        }
        let ghost done = out.deep_view();
        out.push(d);
        proof {
            assert(out.deep_view() =~= done + seq![i@.subrange(o as int, e as int)]);
            let tail = spec_parse_questions(i@, e as int, (k - 1) as nat);
            if tail is Ok {
                assert((done + seq![i@.subrange(o as int, e as int)]) + tail->Ok_0.1 =~= done + (
                seq![i@.subrange(o as int, e as int)] + tail->Ok_0.1));
            }
        }
        o = e;
        k = k - 1;
    }
}

/// The expansions of `cnt` questions read back to back from offset `o`,
/// each question located just past the previous one's raw (compressed) wire
/// form.
pub open spec fn spec_expand_questions(p: Seq<u8>, o: int, cnt: nat) -> Result<
    Seq<Seq<u8>>,
    ParseError,
>
    decreases cnt,
{
    if cnt == 0 {
        Ok(Seq::empty())
    } else {
        match spec_expand_question(p, o) {
            Err(e) => Err(e),
            Ok((e, q)) => match spec_expand_questions(p, e, (cnt - 1) as nat) {
                Err(e2) => Err(e2),
                Ok(rest) => Ok(seq![q] + rest),
            },
        }
    }
}

/// Expands `cnt` questions read back to back from offset `offset` of `i`,
/// returning each question's expanded wire form, in order.
pub fn expand_questions(i: &[u8], offset: usize, cnt: usize) -> (r: Result<
    Vec<Vec<u8>>,
    ParseError,
>)
    ensures
        match r {
            Ok(v) => spec_expand_questions(i@, offset as int, cnt as nat) == Ok::<
                Seq<Seq<u8>>,
                ParseError,
            >(v.deep_view()),
            Err(err) => spec_expand_questions(i@, offset as int, cnt as nat) == Err::<
                Seq<Seq<u8>>,
                ParseError,
            >(err),
        },
{
    let mut out: Vec<Vec<u8>> = Vec::new();
    let mut o: usize = offset;
    let mut k: usize = cnt;
    loop
        invariant
            spec_expand_questions(i@, offset as int, cnt as nat) == (match spec_expand_questions(
                i@,
                o as int,
                k as nat,
            ) {
                Ok(rest) => Ok::<Seq<Seq<u8>>, ParseError>(out.deep_view() + rest),
                Err(e) => Err::<Seq<Seq<u8>>, ParseError>(e),
            }),
        decreases k,
    {
        if k == 0 {
            proof {
                assert(out.deep_view() + Seq::<Seq<u8>>::empty() =~= out.deep_view());
            }
            return Ok(out);
        }
        let (e, q) = match expand_question(i, o) {
            Ok(t) => t,
            Err(err) => {
                return Err(err);
            },
        };
        let ghost qv = q@;
        proof {
            assert(q.deep_view() =~= qv);
        }
        let ghost done = out.deep_view();
        out.push(q);
        proof {
            assert(out.deep_view() =~= done + seq![qv]);
            let tail = spec_expand_questions(i@, e as int, (k - 1) as nat);
            if tail is Ok {
                assert((done + seq![qv]) + tail->Ok_0 =~= done + (seq![qv] + tail->Ok_0));
            }
        }
        o = e;
        k = k - 1;
    }
}

} // verus!
