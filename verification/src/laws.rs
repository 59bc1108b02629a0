//! Properties that relate the codec's pieces, stated over the spec
//! functions that the executable contracts use and proved once for all
//! inputs: encoding and expansion round-trip, compression equivalence,
//! pointer chains, count bookkeeping, and response-code masking.

use vstd::arithmetic::div_mod::lemma_fundamental_div_mod;
use vstd::prelude::*;

use crate::message::{
    spec_add_answer, spec_add_question, spec_answer_count, spec_encode_labels, spec_encode_name,
    spec_labels_acc, spec_labels_valid, spec_name_labels, spec_question_count, spec_rcode,
    spec_set_rcode,
};
use crate::parser::{
    is_label_byte, is_pointer_byte, spec_expand_name, spec_pointer_target, ParseError,
};

verus! {

/// Giving a successful expansion more fuel changes nothing: the fuel bound
/// only cuts off pointer chains that would not have finished anyway.
pub proof fn lemma_expand_fuel_monotone(p: Seq<u8>, o: int, f1: nat, f2: nat)
    requires
        f1 <= f2,
        spec_expand_name(p, o, f1) is Ok,
    ensures
        spec_expand_name(p, o, f2) == spec_expand_name(p, o, f1),
    decreases f1, p.len() - o,
{
    if 0 <= o < p.len() && p[o] != 0 {
        if is_pointer_byte(p[o]) {
            if o + 2 <= p.len() && f1 >= 1 && spec_pointer_target(p[o], p[o + 1]) < p.len() {
                lemma_expand_fuel_monotone(
                    p,
                    spec_pointer_target(p[o], p[o + 1]),
                    (f1 - 1) as nat,
                    (f2 - 1) as nat,
                );
            }
        } else if is_label_byte(p[o]) && o + 1 + p[o] <= p.len() {
            if spec_expand_name(p, o + 1 + p[o], f1) is Ok {
                lemma_expand_fuel_monotone(p, o + 1 + p[o], f1, f2);
            }
        }
    }
}

/// One pointer step: a name that starts with a pointer expands exactly as
/// the name at the pointer's target, with one unit of fuel spent.
pub proof fn lemma_pointer_step(p: Seq<u8>, o: int, fuel: nat)
    requires
        0 <= o,
        o + 2 <= p.len(),
        is_pointer_byte(p[o]),
        spec_pointer_target(p[o], p[o + 1]) < p.len(),
        fuel >= 1,
    ensures
        spec_expand_name(p, o, fuel) == spec_expand_name(
            p,
            spec_pointer_target(p[o], p[o + 1]),
            (fuel - 1) as nat,
        ),
{
    let b = p[o];
    assert(b & 0xC0 == 0xC0 ==> b != 0) by (bit_vector);
}

/// A pointer that leads to another pointer resolves transitively: the
/// expansion at the first pointer equals the expansion at the second
/// pointer's own target, two units of fuel spent.
pub proof fn lemma_pointer_chain(p: Seq<u8>, o: int, fuel: nat)
    requires
        0 <= o,
        o + 2 <= p.len(),
        is_pointer_byte(p[o]),
        ({
            let t = spec_pointer_target(p[o], p[o + 1]);
            &&& t + 2 <= p.len()
            &&& is_pointer_byte(p[t])
            &&& spec_pointer_target(p[t], p[t + 1]) < p.len()
        }),
        fuel >= 2,
    ensures
        ({
            let t = spec_pointer_target(p[o], p[o + 1]);
            spec_expand_name(p, o, fuel) == spec_expand_name(
                p,
                spec_pointer_target(p[t], p[t + 1]),
                (fuel - 2) as nat,
            )
        }),
{
    let t = spec_pointer_target(p[o], p[o + 1]);
    lemma_pointer_step(p, o, fuel);
    lemma_pointer_step(p, t, (fuel - 1) as nat);
}

/// Compression equivalence: a name written as one fresh label followed by a
/// pointer expands to that label followed by whatever the pointed-to name
/// expands to — terminator included — exactly as if the pointer were
/// replaced by the pointed-to name's spelled-out form.
pub proof fn lemma_compressed_suffix(p: Seq<u8>, o: int, fuel: nat)
    requires
        0 <= o < p.len(),
        is_label_byte(p[o]),
        p[o] != 0,
        o + 1 + p[o] + 2 <= p.len(),
        is_pointer_byte(p[o + 1 + p[o]]),
        spec_pointer_target(p[o + 1 + p[o]], p[o + 2 + p[o]]) < p.len(),
        fuel >= 1,
    ensures
        spec_expand_name(p, o, fuel) == (match spec_expand_name(
            p,
            spec_pointer_target(p[o + 1 + p[o]], p[o + 2 + p[o]]),
            (fuel - 1) as nat,
        ) {
            Ok(a) => Ok::<Seq<u8>, ParseError>(p.subrange(o, o + 1 + p[o]) + a),
            Err(e) => Err::<Seq<u8>, ParseError>(e),
        }),
{
    let b2 = p[o + 1 + p[o]];
    assert(b2 & 0xC0 == 0xC0 ==> b2 != 0) by (bit_vector);
    lemma_pointer_step(p, o + 1 + p[o], fuel);
}

/// `p` with a run of question appends applied in order.
pub open spec fn spec_add_questions(p: Seq<u8>, qs: Seq<Seq<u8>>) -> Seq<u8>
    decreases qs.len(),
{
    if qs.len() == 0 {
        p
    } else {
        spec_add_questions(spec_add_question(p, qs[0]), qs.drop_first())
    }
}

/// `p` with a run of answer appends applied in order.
pub open spec fn spec_add_answers(p: Seq<u8>, ans: Seq<Seq<u8>>) -> Seq<u8>
    decreases ans.len(),
{
    if ans.len() == 0 {
        p
    } else {
        spec_add_answers(spec_add_answer(p, ans[0]), ans.drop_first())
    }
}

/// One question append raises the question count by one and leaves the
/// answer count and the header's presence untouched.
proof fn lemma_add_question_effect(p: Seq<u8>, q: Seq<u8>)
    requires
        p.len() >= 12,
        spec_question_count(p) < 0xFFFF,
    ensures
        spec_add_question(p, q).len() >= 12,
        spec_question_count(spec_add_question(p, q)) == spec_question_count(p) + 1,
        spec_answer_count(spec_add_question(p, q)) == spec_answer_count(p),
{
    lemma_fundamental_div_mod(spec_question_count(p) + 1, 256);
}

/// One answer append raises the answer count by one and leaves the question
/// count and the header's presence untouched.
proof fn lemma_add_answer_effect(p: Seq<u8>, a: Seq<u8>)
    requires
        p.len() >= 12,
        spec_answer_count(p) < 0xFFFF,
    ensures
        spec_add_answer(p, a).len() >= 12,
        spec_answer_count(spec_add_answer(p, a)) == spec_answer_count(p) + 1,
        spec_question_count(spec_add_answer(p, a)) == spec_question_count(p),
{
    lemma_fundamental_div_mod(spec_answer_count(p) + 1, 256);
}

proof fn lemma_add_questions_counts(p: Seq<u8>, qs: Seq<Seq<u8>>)
    requires
        p.len() >= 12,
        spec_question_count(p) + qs.len() <= 0xFFFF,
    ensures
        spec_add_questions(p, qs).len() >= 12,
        spec_question_count(spec_add_questions(p, qs)) == spec_question_count(p) + qs.len(),
        spec_answer_count(spec_add_questions(p, qs)) == spec_answer_count(p),
    decreases qs.len(),
{
    if qs.len() > 0 {
        lemma_add_question_effect(p, qs[0]);
        lemma_add_questions_counts(spec_add_question(p, qs[0]), qs.drop_first());
    }
}

proof fn lemma_add_answers_counts(p: Seq<u8>, ans: Seq<Seq<u8>>)
    requires
        p.len() >= 12,
        spec_answer_count(p) + ans.len() <= 0xFFFF,
    ensures
        spec_add_answers(p, ans).len() >= 12,
        spec_answer_count(spec_add_answers(p, ans)) == spec_answer_count(p) + ans.len(),
        spec_question_count(spec_add_answers(p, ans)) == spec_question_count(p),
    decreases ans.len(),
{
    if ans.len() > 0 {
        lemma_add_answer_effect(p, ans[0]);
        lemma_add_answers_counts(spec_add_answer(p, ans[0]), ans.drop_first());
    }
}

/// Count bookkeeping: appending any run of questions and then any run of
/// answers to a message leaves the question count higher by exactly the
/// number of questions appended and the answer count higher by exactly the
/// number of answers appended.
pub proof fn lemma_append_counts(p: Seq<u8>, qs: Seq<Seq<u8>>, ans: Seq<Seq<u8>>)
    requires
        p.len() >= 12,
        spec_question_count(p) + qs.len() <= 0xFFFF,
        spec_answer_count(p) + ans.len() <= 0xFFFF,
    ensures
        spec_question_count(spec_add_answers(spec_add_questions(p, qs), ans))
            == spec_question_count(p) + qs.len(),
        spec_answer_count(spec_add_answers(spec_add_questions(p, qs), ans)) == spec_answer_count(p)
            + ans.len(),
{
    lemma_add_questions_counts(p, qs);
    lemma_add_answers_counts(spec_add_questions(p, qs), ans);
}

/// Every label that the dot split yields is non-empty.
proof fn lemma_acc_labels_nonempty(s: Seq<u8>, o: int, cur: Seq<u8>)
    ensures
        forall|j: int|
            0 <= j < spec_labels_acc(s, o, cur).len() ==> (#[trigger] spec_labels_acc(
                s,
                o,
                cur,
            )[j]).len() >= 1,
        cur.len() > 0 && spec_labels_acc(s, o, cur).len() > 0 ==> spec_labels_acc(
            s,
            o,
            cur,
        )[0].len() >= cur.len(),
    decreases s.len() - o,
{
    if o < 0 || o >= s.len() {
    } else if s[o] == 46 {
        lemma_acc_labels_nonempty(s, o + 1, Seq::empty());
        if cur.len() > 0 {
            let rest = spec_labels_acc(s, o + 1, Seq::<u8>::empty());
            assert(spec_labels_acc(s, o, cur) == seq![cur] + rest);
            assert forall|j: int| 0 <= j < spec_labels_acc(s, o, cur).len() implies (
            #[trigger] spec_labels_acc(s, o, cur)[j]).len() >= 1 by {
                if j == 0 {
                    assert((seq![cur] + rest)[0] == cur);
                } else {
                    assert((seq![cur] + rest)[j] == rest[j - 1]);
                }
            }
        }
    } else {
        lemma_acc_labels_nonempty(s, o + 1, cur.push(s[o]));
    }
}

/// Expanding freshly encoded labels at `o` reproduces them exactly: the
/// packet holds the labels' wire form and the terminator at `o`, no label is
/// empty or longer than 63 bytes, and expansion returns those same bytes
/// whatever fuel it is given.
proof fn lemma_expand_encoded_labels(p: Seq<u8>, o: int, labels: Seq<Seq<u8>>, fuel: nat)
    requires
        spec_labels_valid(labels),
        forall|j: int| 0 <= j < labels.len() ==> (#[trigger] labels[j]).len() >= 1,
        0 <= o,
        o + spec_encode_labels(labels).len() + 1 <= p.len(),
        p.subrange(o, o + spec_encode_labels(labels).len() + 1) == spec_encode_labels(labels)
            + seq![0u8],
    ensures
        spec_expand_name(p, o, fuel) == Ok::<Seq<u8>, ParseError>(
            spec_encode_labels(labels) + seq![0u8],
        ),
    decreases labels.len(),
{
    let enc = spec_encode_labels(labels);
    let w = enc + seq![0u8];
    let el = enc.len() as int;
    if labels.len() == 0 {
        assert(p.subrange(o, o + 1)[0] == p[o]);
        assert(p[o] == 0);
        assert(w =~= seq![0u8]);
    } else {
        let l0 = labels[0];
        let rest = labels.drop_first();
        let enc_rest = spec_encode_labels(rest);
        let n = l0.len() as int;
        let lb = l0.len() as u8;
        assert(enc == seq![lb] + l0 + enc_rest);
        assert(p.subrange(o, o + el + 1)[0] == p[o]);
        assert(p[o] == lb);
        assert(lb <= 63 ==> (lb & 0xC0 == 0 && !(lb & 0xC0 == 0xC0))) by (bit_vector);
        assert(lb >= 1);
        let o2 = o + 1 + n;
        assert(p[o] == n);
        assert forall|j: int| 0 <= j < enc_rest.len() + 1 implies p[o2 + j] == (enc_rest
            + seq![0u8])[j] by {
            assert(p.subrange(o, o + el + 1)[1 + n + j] == p[o + 1 + n + j]);
            assert(w[1 + n + j] == (enc_rest + seq![0u8])[j]);
        }
        assert(p.subrange(o2, o2 + enc_rest.len() + 1) =~= enc_rest + seq![0u8]) by {
            assert(forall|j: int|
                0 <= j < enc_rest.len() + 1 ==> #[trigger] p.subrange(
                    o2,
                    o2 + enc_rest.len() + 1,
                )[j] == p[o2 + j]);
        }
        assert forall|j: int| 0 <= j < rest.len() implies (#[trigger] rest[j]).len() >= 1
            && rest[j].len() <= 63 by {
            assert(rest[j] == labels[j + 1]);
        }
        lemma_expand_encoded_labels(p, o2, rest, fuel);
        assert(p.subrange(o, o2) =~= seq![lb] + l0) by {
            assert(forall|j: int| 0 <= j < 1 + n ==> #[trigger] p.subrange(o, o2)[j] == p[o + j]);
            assert(forall|j: int|
                0 <= j < 1 + n ==> p.subrange(o, o + el + 1)[j] == #[trigger] p[o + j]);
            assert(forall|j: int| 0 <= j < 1 + n ==> #[trigger] w[j] == (seq![lb] + l0)[j]);
        }
        assert(spec_expand_name(p, o, fuel) == Ok::<Seq<u8>, ParseError>(
            p.subrange(o, o2) + (enc_rest + seq![0u8]),
        ));
        assert((seq![lb] + l0) + (enc_rest + seq![0u8]) =~= w);
    }
}

/// Round trip: the wire encoding of a dotted name whose labels all fit the
/// 63-byte limit expands to itself.  Encoding never emits a pointer, so
/// expansion finds only labels and the terminator and returns them
/// unchanged, whatever fuel it is given.
pub proof fn lemma_encode_expand_roundtrip(s: Seq<u8>, fuel: nat)
    requires
        spec_labels_valid(spec_name_labels(s)),
    ensures
        spec_expand_name(spec_encode_name(s), 0, fuel) == Ok::<Seq<u8>, ParseError>(
            spec_encode_name(s),
        ),
{
    let labels = spec_name_labels(s);
    let p = spec_encode_name(s);
    lemma_acc_labels_nonempty(s, 0, Seq::empty());
    assert(p.subrange(0, spec_encode_labels(labels).len() as int + 1) =~= spec_encode_labels(
        labels,
    ) + seq![0u8]);
    lemma_expand_encoded_labels(p, 0, labels, fuel);
}

/// Setting the response code rewrites only the low four bits of byte 3: the
/// code afterwards is the low four bits of `v`, the high four bits of byte
/// 3 keep their value, and no other byte changes.
pub proof fn lemma_set_rcode_preserves_upper(p: Seq<u8>, v: u8)
    requires
        p.len() >= 12,
    ensures
        spec_set_rcode(p, v)[3] & 0xF0 == p[3] & 0xF0,
        spec_rcode(spec_set_rcode(p, v)) == v & 0x0F,
        spec_set_rcode(p, v).len() == p.len(),
        forall|j: int| 0 <= j < p.len() && j != 3 ==> spec_set_rcode(p, v)[j] == p[j],
{
    let b = p[3];
    assert(((b & 0xF0) | (v & 0x0F)) & 0xF0 == b & 0xF0) by (bit_vector);
    assert(((b & 0xF0) | (v & 0x0F)) & 0x0F == v & 0x0F) by (bit_vector);
}

/// Setting the response code twice — to anything, then to anything else —
/// still leaves the high four bits of byte 3 exactly as they started.
pub proof fn lemma_set_rcode_twice_preserves_upper(p: Seq<u8>, v1: u8, v2: u8)
    requires
        p.len() >= 12,
    ensures
        spec_set_rcode(spec_set_rcode(p, v1), v2)[3] & 0xF0 == p[3] & 0xF0,
{
    lemma_set_rcode_preserves_upper(p, v1);
    lemma_set_rcode_preserves_upper(spec_set_rcode(p, v1), v2);
}

} // verus!
