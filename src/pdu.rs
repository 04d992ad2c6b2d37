//! PDUs as far as P-Data transfer needs them, and their byte layout.
use vstd::prelude::*;
use vstd::slice::{slice_subrange, slice_to_vec};

use crate::framing::{be32, from_be32};

verus! {

/// Whether a presentation data value holds a command or a data set.
#[derive(Debug, Clone, Copy, PartialEq, Eq, Structural)]
pub enum PDataValueType {
    Command,
    Data,
}

/// One presentation data value (PDV) of a P-Data-TF PDU.
#[derive(Debug, Clone)]
pub struct PDataValue {
    pub presentation_context_id: u8,
    pub value_type: PDataValueType,
    pub is_last: bool,
    pub data: Vec<u8>,
}

/// A PDV as a mathematical value: context id, type, last flag, payload.
pub type PdvView = (u8, PDataValueType, bool, Seq<u8>);

impl View for PDataValue {
    type V = PdvView;

    open spec fn view(&self) -> PdvView {
        (self.presentation_context_id, self.value_type, self.is_last, self.data@)
    }
}

/// A protocol data unit. P-Data-TF PDUs are decoded into their values;
/// any other PDU type is kept as its type byte and undecoded body.
#[derive(Debug, Clone)]
pub enum Pdu {
    PData { data: Vec<PDataValue> },
    Other { pdu_type: u8, body: Vec<u8> },
}

/// Why bytes could not be read or written as a PDU.
#[derive(Debug, Clone, Copy, PartialEq, Eq, Structural)]
pub enum PduError {
    /// The PDU-length property exceeds the maximum that was asked for.
    TooLarge { length: u32, max: u32 },
    /// The PDV items of a P-Data-TF PDU do not tile its body.
    MalformedPData,
    /// A length does not fit in its 32-bit field.
    LengthOverflow,
}

/// Message control header of a PDV: bit 0 marks a command, bit 1 the last
/// fragment.
pub open spec fn control_byte(value_type: PDataValueType, is_last: bool) -> u8 {
    ((if value_type == PDataValueType::Command { 1u8 } else { 0u8 }) + (if is_last {
        2u8
    } else {
        0u8
    })) as u8
}

pub open spec fn type_of_control(c: u8) -> PDataValueType {
    if c % 2 == 1 {
        PDataValueType::Command
    } else {
        PDataValueType::Data
    }
}

pub open spec fn last_of_control(c: u8) -> bool {
    (c / 2) % 2 == 1
}

/// The big-endian 32-bit integer at `i..i + 4` of `b`.
pub open spec fn be32_at(b: Seq<u8>, i: int) -> u32 {
    from_be32(b[i], b[i + 1], b[i + 2], b[i + 3])
}

/// The PDV items that make up the body of a P-Data-TF PDU, or `None` where
/// the items do not tile the body exactly.
pub open spec fn pdvs_of(body: Seq<u8>) -> Option<Seq<PdvView>>
    decreases body.len(),
{
    if body.len() == 0 {
        Some(Seq::empty())
    } else if body.len() < 6 {
        None
    } else {
        let n = be32_at(body, 0) as int;
        if n < 2 || 4 + n > body.len() {
            None
        } else {
            match pdvs_of(body.skip(4 + n)) {
                Some(rest) => Some(
                    seq![
                        (
                            body[4],
                            type_of_control(body[5]),
                            last_of_control(body[5]),
                            body.subrange(6, 4 + n),
                        ),
                    ] + rest,
                ),
                None => None,
            }
        }
    }
}

/// Length of the PDU that starts `bytes`, header included.
pub open spec fn pdu_total_len(bytes: Seq<u8>) -> int {
    6 + be32_at(bytes, 2)
}

/// The body of the PDU that starts `bytes`.
pub open spec fn pdu_body(bytes: Seq<u8>) -> Seq<u8> {
    bytes.subrange(6, pdu_total_len(bytes))
}

pub open spec fn pdvs_view(values: Seq<PDataValue>) -> Seq<PdvView> {
    values.map_values(|v: PDataValue| v@)
}

/// Encoding of one PDV item.
pub open spec fn pdv_bytes(v: PdvView) -> Seq<u8> {
    be32((v.3.len() + 2) as u32) + seq![v.0, control_byte(v.1, v.2)] + v.3
}

pub open spec fn pdvs_bytes(vs: Seq<PdvView>) -> Seq<u8>
    decreases vs.len(),
{
    if vs.len() == 0 {
        Seq::empty()
    } else {
        pdvs_bytes(vs.drop_last()) + pdv_bytes(vs.last())
    }
}

/// Whether every length field of `p`'s encoding holds its value.
pub open spec fn pdu_fits(p: Pdu) -> bool {
    match p {
        Pdu::PData { data } => pdvs_bytes(pdvs_view(data@)).len() <= u32::MAX,
        Pdu::Other { pdu_type, body } => body@.len() <= u32::MAX,
    }
}

/// Encoding of a whole PDU.
pub open spec fn pdu_bytes(p: Pdu) -> Seq<u8> {
    match p {
        Pdu::PData { data } => {
            let body = pdvs_bytes(pdvs_view(data@));
            seq![0x04u8, 0x00u8] + be32(body.len() as u32) + body
        },
        Pdu::Other { pdu_type, body } => seq![pdu_type, 0x00u8] + be32(body@.len() as u32)
            + body@,
    }
}

proof fn lemma_pdvs_bytes_prefix(vs: Seq<PdvView>, j: int)
    requires
        0 <= j <= vs.len(),
    ensures
        pdvs_bytes(vs.take(j)).len() <= pdvs_bytes(vs).len(),
    decreases vs.len(),
{
    if j < vs.len() {
        lemma_pdvs_bytes_prefix(vs.drop_last(), j);
        assert(vs.drop_last().take(j) =~= vs.take(j));
    } else {
        assert(vs.take(j) =~= vs);
    }
}

fn push_be32(out: &mut Vec<u8>, x: u32)
    ensures
        final(out)@ == old(out)@ + be32(x),
{
    out.push((x >> 24u32) as u8);
    out.push((x >> 16u32) as u8);
    out.push((x >> 8u32) as u8);
    out.push(x as u8);
    assert(out@ =~= old(out)@ + be32(x));
}

/// Appends the encoding of `pdu` to `out`.
///
/// Fails, leaving `out` as it was, where a length does not fit in its
/// 32-bit field.
pub fn write_pdu(out: &mut Vec<u8>, pdu: &Pdu) -> (r: Result<(), PduError>)
    ensures
        r is Ok <==> pdu_fits(*pdu),
        r is Ok ==> final(out)@ == old(out)@ + pdu_bytes(*pdu),
        r is Err ==> r == Err::<(), PduError>(PduError::LengthOverflow) && final(out)@ == old(
            out,
        )@,
{
    match pdu {
        Pdu::PData { data } => {
            let ghost vs = pdvs_view(data@);
            let mut body: Vec<u8> = Vec::new();
            let mut i: usize = 0;
            while i < data.len()
                invariant
                    i <= data@.len(),
                    vs == pdvs_view(data@),
                    *pdu == (Pdu::PData { data: *data }),
                    body@ == pdvs_bytes(vs.take(i as int)),
                    body@.len() <= u32::MAX,
                decreases data@.len() - i,
            {
                let d = &data[i].data;
                if body.len() > 0xFFFF_FFF9 || d.len() > 0xFFFF_FFF9 - body.len() {
                    proof {
                        assert(vs.take(i + 1).drop_last() =~= vs.take(i as int));
                        assert(vs.take(i + 1).last() == data@[i as int]@);
                        assert(pdv_bytes(vs.take(i + 1).last()).len() == d@.len() + 6);
                        assert(pdvs_bytes(vs.take(i + 1)) == pdvs_bytes(vs.take(i as int))
                            + pdv_bytes(vs.take(i + 1).last()));
                        assert(pdvs_bytes(vs.take(i + 1)).len() == body@.len() + d@.len() + 6);
                        lemma_pdvs_bytes_prefix(vs, i + 1);
                        assert(pdvs_bytes(vs).len() > u32::MAX);
                    }
                    return Err(PduError::LengthOverflow);
                }
                push_be32(&mut body, (d.len() + 2) as u32);
                body.push(data[i].presentation_context_id);
                let control: u8 = (if data[i].value_type == PDataValueType::Command {
                    1u8
                } else {
                    0u8
                }) + (if data[i].is_last {
                    2u8
                } else {
                    0u8
                });
                body.push(control);
                body.extend_from_slice(d.as_slice());
                proof {
                    assert(vs.take(i + 1).drop_last() =~= vs.take(i as int));
                    assert(body@ =~= pdvs_bytes(vs.take(i + 1)));
                }
                i = i + 1;
            }
            assert(vs.take(i as int) =~= vs);
            out.push(0x04);
            out.push(0x00);
            push_be32(out, body.len() as u32);
            out.extend_from_slice(body.as_slice());
            assert(out@ =~= old(out)@ + pdu_bytes(*pdu));
            Ok(())
        },
        Pdu::Other { pdu_type, body } => {
            if body.len() > 0xFFFF_FFFF {
                return Err(PduError::LengthOverflow);
            }
            out.push(*pdu_type);
            out.push(0x00);
            push_be32(out, body.len() as u32);
            out.extend_from_slice(body.as_slice());
            assert(out@ =~= old(out)@ + pdu_bytes(*pdu));
            Ok(())
        },
    }
}

fn read_be32(b: &[u8], i: usize) -> (r: u32)
    requires
        i + 4 <= b@.len(),
    ensures
        r == be32_at(b@, i as int),
{
    ((b[i] as u32) << 24u32) | ((b[i + 1] as u32) << 16u32) | ((b[i + 2] as u32) << 8u32) | (
    b[i + 3] as u32)
}

proof fn lemma_pdvs_step(body: Seq<u8>, pos: int)
    requires
        0 <= pos < body.len(),
    ensures
        ({
            let b = body.skip(pos);
            pdvs_of(b) == if b.len() < 6 {
                None
            } else {
                let n = be32_at(b, 0) as int;
                if n < 2 || 4 + n > b.len() {
                    None
                } else {
                    match pdvs_of(body.skip(pos + 4 + n)) {
                        Some(rest) => Some(
                            seq![
                                (
                                    b[4],
                                    type_of_control(b[5]),
                                    last_of_control(b[5]),
                                    b.subrange(6, 4 + n),
                                ),
                            ] + rest,
                        ),
                        None => None,
                    }
                }
            }
        }),
{
    let b = body.skip(pos);
    if b.len() >= 6 {
        let n = be32_at(b, 0) as int;
        if n >= 2 && 4 + n <= b.len() {
            assert(b.skip(4 + n) =~= body.skip(pos + 4 + n));
        }
    }
}

/// Decodes the items of a P-Data-TF PDU body.
fn read_pdvs(body: &[u8]) -> (r: Option<Vec<PDataValue>>)
    ensures
        r is Some <==> pdvs_of(body@) is Some,
        r is Some ==> pdvs_view(r->Some_0@) == pdvs_of(body@)->Some_0,
{
    let mut values: Vec<PDataValue> = Vec::new();
    let mut pos: usize = 0;
    proof {
        assert(body@.skip(0) =~= body@);
        assert(pdvs_view(values@) =~= Seq::<PdvView>::empty());
        match pdvs_of(body@) {
            Some(rest) => {
                assert(pdvs_view(values@) + rest =~= rest);
            },
            None => {},
        }
    }
    while pos < body.len()
        invariant
            pos <= body@.len(),
            pdvs_of(body@) == match pdvs_of(body@.skip(pos as int)) {
                Some(rest) => Some(pdvs_view(values@) + rest),
                None => None::<Seq<PdvView>>,
            },
        decreases body@.len() - pos,
    {
        proof {
            lemma_pdvs_step(body@, pos as int);
        }
        let ghost b = body@.skip(pos as int);
        if body.len() - pos < 6 {
            return None;
        }
        let n = read_be32(body, pos);
        assert(be32_at(b, 0) == be32_at(body@, pos as int));
        if n < 2 || n as usize > body.len() - pos - 4 {
            return None;
        }
        let pcid = body[pos + 4];
        let control = body[pos + 5];
        let start = pos + 6;
        let end = pos + 4 + n as usize;
        let data = slice_to_vec(slice_subrange(body, start, end));
        let value = PDataValue {
            presentation_context_id: pcid,
            value_type: if control % 2 == 1 {
                PDataValueType::Command
            } else {
                PDataValueType::Data
            },
            is_last: (control / 2) % 2 == 1,
            data,
        };
        let ghost before = values@;
        values.push(value);
        proof {
            assert(data@ =~= b.subrange(6, 4 + n as int));
            assert(pdvs_view(values@) =~= pdvs_view(before) + seq![value@]);
            assert(value@ == (
                b[4],
                type_of_control(b[5]),
                last_of_control(b[5]),
                b.subrange(6, 4 + n as int),
            ));
            match pdvs_of(body@.skip(end as int)) {
                Some(rest) => {
                    assert(pdvs_view(values@) + rest =~= pdvs_view(before) + (seq![value@]
                        + rest));
                },
                None => {},
            }
        }
        pos = end;
    }
    assert(body@.skip(pos as int) =~= Seq::<u8>::empty());
    assert(pdvs_view(values@) + Seq::<PdvView>::empty() =~= pdvs_view(values@));
    Some(values)
}

/// Reads the PDU at the start of `bytes`.
///
/// Returns `Ok(None)` where `bytes` holds only part of a PDU (more must be
/// read before trying again), and otherwise the PDU with the number of
/// bytes that it takes. With `strict`, a PDU-length property over
/// `max_pdu_length` is an error.
pub fn read_pdu(bytes: &[u8], max_pdu_length: u32, strict: bool) -> (r: Result<
    Option<(Pdu, usize)>,
    PduError,
>)
    ensures
        bytes@.len() < 6 ==> r is Ok && r->Ok_0 is None,
        bytes@.len() >= 6 && strict && be32_at(bytes@, 2) > max_pdu_length ==> r == Err::<
            Option<(Pdu, usize)>,
            PduError,
        >(PduError::TooLarge { length: be32_at(bytes@, 2), max: max_pdu_length }),
        bytes@.len() >= 6 && !(strict && be32_at(bytes@, 2) > max_pdu_length) && bytes@.len()
            < pdu_total_len(bytes@) ==> r is Ok && r->Ok_0 is None,
        bytes@.len() >= 6 && !(strict && be32_at(bytes@, 2) > max_pdu_length) && bytes@.len()
            >= pdu_total_len(bytes@) ==> {
            let body = pdu_body(bytes@);
            if bytes@[0] == 0x04u8 {
                match pdvs_of(body) {
                    None => r == Err::<Option<(Pdu, usize)>, PduError>(PduError::MalformedPData),
                    Some(vs) => {
                        &&& r is Ok
                        &&& r->Ok_0 is Some
                        &&& r->Ok_0->Some_0.1 == pdu_total_len(bytes@)
                        &&& r->Ok_0->Some_0.0 is PData
                        &&& pdvs_view(r->Ok_0->Some_0.0->PData_data@) == vs
                    },
                }
            } else {
                &&& r is Ok
                &&& r->Ok_0 is Some
                &&& r->Ok_0->Some_0.1 == pdu_total_len(bytes@)
                &&& r->Ok_0->Some_0.0 == Pdu::Other { pdu_type: bytes@[0], body: r->Ok_0->Some_0.0->Other_body }
                &&& r->Ok_0->Some_0.0->Other_body@ == body
            }
        },
{
    if bytes.len() < 6 {
        return Ok(None);
    }
    let pdu_type = bytes[0];
    let length = read_be32(bytes, 2);
    if strict && length > max_pdu_length {
        return Err(PduError::TooLarge { length, max: max_pdu_length });
    }
    if (length as usize) > bytes.len() - 6 {
        return Ok(None);
    }
    let total = 6 + length as usize;
    let body = slice_subrange(bytes, 6, total);
    if pdu_type == 0x04 {
        match read_pdvs(body) {
            Some(data) => Ok(Some((Pdu::PData { data }, total))),
            None => Err(PduError::MalformedPData),
        }
    } else {
        Ok(Some((Pdu::Other { pdu_type, body: slice_to_vec(body) }, total)))
    }
}

} // verus!
