//! What a reader makes of the PDUs that a writer sends.
use vstd::prelude::*;
use vstd::arithmetic::div_mod::lemma_div_plus_one;

use crate::framing::{be32, data_control, lemma_be32_round_trip, pdata_pdu};
use crate::pdu::{
    be32_at, control_byte, last_of_control, pdu_body, pdu_bytes, pdu_fits, pdu_total_len,
    pdv_bytes, pdvs_bytes, pdvs_of, pdvs_view, type_of_control, PDataValueType, Pdu, PdvView,
};
use crate::reader::{last_after, payloads, pdata_at};
use crate::writer::written;

verus! {

/// The P-Data carried by the PDUs at the start of `w`, up to and including
/// the one whose last value is marked as the last, with the number of
/// those PDUs; `None` where `w` does not hold such PDUs.
pub open spec fn read_all(w: Seq<u8>) -> Option<(Seq<u8>, nat)>
    decreases w.len(),
{
    if w.len() >= 6 && w.len() >= pdu_total_len(w) && w[0] == 0x04u8 {
        match pdvs_of(pdu_body(w)) {
            None => None,
            Some(vs) => if last_after(false, vs) {
                Some((payloads(vs), 1))
            } else {
                match read_all(w.skip(pdu_total_len(w))) {
                    Some((rest, n)) => Some((payloads(vs) + rest, n + 1)),
                    None => None,
                }
            },
        }
    } else {
        None
    }
}

/// A P-Data-TF PDU of one data value, as the writer sends it, reads back
/// as that value, whatever follows it.
pub proof fn lemma_pdata_pdu_parses(pcid: u8, payload: Seq<u8>, is_last: bool, rest: Seq<u8>)
    requires
        payload.len() + 6 <= u32::MAX,
    ensures
        pdu_total_len(pdata_pdu(pcid, payload, is_last) + rest) == 12 + payload.len(),
        (pdata_pdu(pcid, payload, is_last) + rest).skip(12 + payload.len() as int) == rest,
        pdata_at(pdata_pdu(pcid, payload, is_last) + rest) == Some(
            seq![(pcid, PDataValueType::Data, is_last, payload)],
        ),
{
    let w = pdata_pdu(pcid, payload, is_last) + rest;
    let len = payload.len() as int;
    lemma_be32_round_trip((len + 6) as u32);
    lemma_be32_round_trip((len + 2) as u32);
    assert(be32_at(w, 2) == len + 6);
    let body = pdu_body(w);
    assert(body =~= be32((len + 2) as u32) + seq![pcid, data_control(is_last)] + payload);
    assert(be32_at(body, 0) == len + 2);
    assert(body.skip(4 + len + 2) =~= Seq::<u8>::empty());
    assert(body.subrange(6, 4 + len + 2) =~= payload);
    assert(type_of_control(data_control(is_last)) == PDataValueType::Data);
    assert(last_of_control(data_control(is_last)) == is_last);
    assert(body.len() == len + 6);
    assert(body[4] == pcid && body[5] == data_control(is_last));
    assert(pdvs_of(Seq::<u8>::empty()) == Some(Seq::<PdvView>::empty()));
    assert(pdvs_of(body) == Some(
        seq![(pcid, PDataValueType::Data, is_last, payload)] + Seq::<PdvView>::empty(),
    ));
    assert(seq![(pcid, PDataValueType::Data, is_last, payload)] + Seq::<PdvView>::empty()
        =~= seq![(pcid, PDataValueType::Data, is_last, payload)]);
    assert(w.skip(12 + len) =~= rest);
}

proof fn lemma_single_payload(pcid: u8, p: Seq<u8>, is_last: bool)
    ensures
        payloads(seq![(pcid, PDataValueType::Data, is_last, p)]) == p,
        last_after(false, seq![(pcid, PDataValueType::Data, is_last, p)]) == is_last,
{
    let vs = seq![(pcid, PDataValueType::Data, is_last, p)];
    assert(vs.drop_last() =~= Seq::<PdvView>::empty());
    assert(payloads(Seq::<PdvView>::empty()) == Seq::<u8>::empty());
    assert(Seq::<u8>::empty() + p =~= p);
}

/// Writing `s` whole to a fresh writer and finishing it sends PDUs that a
/// reader reads back as exactly `s`. There are as many PDUs as it takes to
/// hold `s` at `max_pdu_length - 6` bytes each, and one when `s` is empty.
pub proof fn law_write_read_round_trip(pcid: u8, max_pdu_length: u32, s: Seq<u8>)
    requires
        max_pdu_length >= 18,
    ensures
        read_all(written(pcid, s, (max_pdu_length - 6) as nat)) == Some(
            (
                s,
                if s.len() == 0 {
                    1nat
                } else {
                    ((s.len() + max_pdu_length - 7) / (max_pdu_length - 6) as int) as nat
                },
            ),
        ),
    decreases s.len(),
{
    let max = (max_pdu_length - 6) as nat;
    if s.len() <= max {
        lemma_pdata_pdu_parses(pcid, s, true, Seq::empty());
        assert(pdata_pdu(pcid, s, true) + Seq::<u8>::empty() =~= pdata_pdu(pcid, s, true));
        lemma_single_payload(pcid, s, true);
        if s.len() > 0 {
            assert((s.len() + max - 1) / max as int == 1) by (nonlinear_arith)
                requires
                    0 < s.len() <= max,
            ;
        }
    } else {
        let head = s.take(max as int);
        let tail = s.skip(max as int);
        let rest = written(pcid, tail, max);
        law_write_read_round_trip(pcid, max_pdu_length, tail);
        lemma_pdata_pdu_parses(pcid, head, false, rest);
        lemma_single_payload(pcid, head, false);
        assert(head + tail =~= s);
        lemma_div_plus_one(s.len() - 1, max as int);
        assert(tail.len() + max - 1 == s.len() - 1);
    }
}

proof fn lemma_control_byte(value_type: PDataValueType, is_last: bool)
    ensures
        type_of_control(control_byte(value_type, is_last)) == value_type,
        last_of_control(control_byte(value_type, is_last)) == is_last,
{
}

/// One encoded PDV item, followed by well-formed items, reads back as
/// that item and then the others.
proof fn lemma_pdv_item(v: PdvView, tail: Seq<u8>, t: Seq<PdvView>)
    requires
        v.3.len() + 6 <= u32::MAX,
        pdvs_of(tail) == Some(t),
    ensures
        pdvs_of(pdv_bytes(v) + tail) == Some(seq![v] + t),
{
    let b = pdv_bytes(v) + tail;
    let len = v.3.len() as int;
    lemma_be32_round_trip((len + 2) as u32);
    assert(be32_at(b, 0) == len + 2);
    assert(b.skip(len + 6) =~= tail);
    assert(b.subrange(6, len + 6) =~= v.3);
    lemma_control_byte(v.1, v.2);
    assert(b[4] == v.0 && b[5] == control_byte(v.1, v.2));
}

proof fn lemma_pdvs_bytes_len(vs: Seq<PdvView>)
    ensures
        vs.len() > 0 ==> pdvs_bytes(vs).len() == pdvs_bytes(vs.drop_last()).len() + vs.last().3.len()
            + 6,
{
}

/// Encoded PDV items, followed by well-formed items, read back as those
/// items and then the others.
proof fn lemma_pdvs_of_concat(vs: Seq<PdvView>, tail: Seq<u8>, t: Seq<PdvView>)
    requires
        pdvs_bytes(vs).len() <= u32::MAX,
        pdvs_of(tail) == Some(t),
    ensures
        pdvs_of(pdvs_bytes(vs) + tail) == Some(vs + t),
    decreases vs.len(),
{
    if vs.len() == 0 {
        assert(pdvs_bytes(vs) + tail =~= tail);
        assert(vs + t =~= t);
    } else {
        let init = vs.drop_last();
        let last = vs.last();
        lemma_pdvs_bytes_len(vs);
        lemma_pdv_item(last, tail, t);
        lemma_pdvs_of_concat(init, pdv_bytes(last) + tail, seq![last] + t);
        assert(pdvs_bytes(vs) + tail =~= pdvs_bytes(init) + (pdv_bytes(last) + tail));
        assert(init + (seq![last] + t) =~= vs + t);
    }
}

/// A PDU encoded by `write_pdu` reads back by `read_pdu` as the same PDU,
/// taking exactly its encoding, whatever follows it. A PDU of another type
/// than P-Data-TF that claims the P-Data-TF type byte is left out: its body
/// is read as PDV items.
pub proof fn law_pdu_round_trip(p: Pdu, rest: Seq<u8>)
    requires
        pdu_fits(p),
        !(p is Other && p->Other_pdu_type == 0x04u8),
    ensures
        (pdu_bytes(p) + rest).len() >= 6,
        pdu_total_len(pdu_bytes(p) + rest) == pdu_bytes(p).len(),
        (pdu_bytes(p) + rest).skip(pdu_bytes(p).len() as int) == rest,
        match p {
            Pdu::PData { data } => {
                &&& (pdu_bytes(p) + rest)[0] == 0x04u8
                &&& pdvs_of(pdu_body(pdu_bytes(p) + rest)) == Some(pdvs_view(data@))
            },
            Pdu::Other { pdu_type, body } => {
                &&& (pdu_bytes(p) + rest)[0] == pdu_type
                &&& pdu_body(pdu_bytes(p) + rest) == body@
            },
        },
{
    let w = pdu_bytes(p) + rest;
    match p {
        Pdu::PData { data } => {
            let vs = pdvs_view(data@);
            let body = pdvs_bytes(vs);
            lemma_be32_round_trip(body.len() as u32);
            assert(be32_at(w, 2) == body.len());
            assert(pdu_body(w) =~= body);
            assert(pdvs_of(Seq::<u8>::empty()) == Some(Seq::<PdvView>::empty()));
            lemma_pdvs_of_concat(vs, Seq::empty(), Seq::empty());
            assert(body + Seq::<u8>::empty() =~= body);
            assert(vs + Seq::<PdvView>::empty() =~= vs);
        },
        Pdu::Other { pdu_type, body } => {
            lemma_be32_round_trip(body@.len() as u32);
            assert(be32_at(w, 2) == body@.len());
            assert(pdu_body(w) =~= body@);
        },
    }
    assert(w.skip(pdu_bytes(p).len() as int) =~= rest);
}

} // verus!
