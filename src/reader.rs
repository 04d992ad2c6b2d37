//! Reassembling a byte stream from P-Data-TF PDUs.
use vstd::prelude::*;
use std::collections::VecDeque;

use crate::pdu::{pdu_body, pdu_total_len, pdvs_of, pdvs_view, read_pdu, PDataValue, Pdu, PduError, PdvView};
use crate::transport::ByteSource;
use crate::wire::{bytes_mut_contents, wire_advance, wire_bytes, wire_extend, wire_with_capacity};

verus! {

/// Why reading P-Data failed.
#[derive(Debug)]
pub enum ReadError<E> {
    /// The transport failed.
    Transport(E),
    /// The peer closed the connection in the middle of a PDU.
    ConnectionClosed,
    /// A PDU other than P-Data-TF arrived.
    UnexpectedPdu,
    /// The bytes received are not a well-formed PDU.
    Pdu(PduError),
}

/// The wire buffer `wire`, followed by what arrived while the record of
/// received bytes grew from `before` to `after`.
pub open spec fn seen(wire: Seq<u8>, before: Seq<u8>, after: Seq<u8>) -> Seq<u8> {
    wire + after.skip(before.len() as int)
}

/// Whether `w` starts with a whole PDU.
pub open spec fn holds_whole_pdu(w: Seq<u8>) -> bool {
    w.len() >= 6 && w.len() >= pdu_total_len(w)
}

/// The values of the complete P-Data-TF PDU at the start of `w`, if any.
pub open spec fn pdata_at(w: Seq<u8>) -> Option<Seq<PdvView>> {
    if w.len() >= 6 && w.len() >= pdu_total_len(w) && w[0] == 0x04u8 {
        pdvs_of(pdu_body(w))
    } else {
        None
    }
}

/// The payloads of `vs`, one after the other.
pub open spec fn payloads(vs: Seq<PdvView>) -> Seq<u8>
    decreases vs.len(),
{
    if vs.len() == 0 {
        Seq::empty()
    } else {
        payloads(vs.drop_last()) + vs.last().3
    }
}

/// Whether the message has ended after `vs`: the last flag of the last
/// value, if there is one.
pub open spec fn last_after(last: bool, vs: Seq<PdvView>) -> bool {
    if vs.len() == 0 {
        last
    } else {
        vs.last().2
    }
}

/// The presentation context expected after `vs`: the first one seen.
pub open spec fn context_after(expected: Option<u8>, vs: Seq<PdvView>) -> Option<u8> {
    match expected {
        Some(c) => Some(c),
        None => if vs.len() == 0 {
            None
        } else {
            Some(vs[0].0)
        },
    }
}

/// `n` plus one, held at the largest `u64`.
pub open spec fn saturating_inc(n: nat) -> nat {
    if n < u64::MAX {
        n + 1
    } else {
        n
    }
}

/// `count`, plus the number of values of `vs` that came on another
/// presentation context than the one expected when they arrived (held at
/// the largest `u64`).
pub open spec fn drift_after(count: nat, expected: Option<u8>, vs: Seq<PdvView>) -> nat
    decreases vs.len(),
{
    if vs.len() == 0 {
        count
    } else {
        let c = drift_after(count, expected, vs.drop_last());
        match context_after(expected, vs.drop_last()) {
            Some(e) => if e != vs.last().0 {
                saturating_inc(c)
            } else {
                c
            },
            None => c,
        }
    }
}

/// How far the wire buffer `w` is from holding a whole PDU.
pub open spec fn missing(w: Seq<u8>) -> int {
    if w.len() < 6 {
        u32::MAX + 12 - w.len()
    } else if w.len() < pdu_total_len(w) {
        pdu_total_len(w) - w.len()
    } else {
        0
    }
}

/// Whether `new_buf` is `old_buf` with its first `n` bytes taken from
/// `queue`, `n` being as many as both have.
pub open spec fn served(queue: Seq<u8>, old_buf: Seq<u8>, new_buf: Seq<u8>, n: int) -> bool {
    &&& n == if queue.len() < old_buf.len() {
        queue.len() as int
    } else {
        old_buf.len() as int
    }
    &&& new_buf == queue.take(n) + old_buf.skip(n)
}

/// A P-Data value reader.
///
/// It provides the bytes of the data values of the P-Data-TF PDUs that
/// arrive on a transport, one after the other, until the value marked as
/// the last one has been delivered.
///
/// A value on another presentation context than the first one seen is
/// accepted all the same, and counted (see `presentation_context_mismatches`):
/// some peers have been seen to do this within one message.
#[must_use]
pub struct PDataReader<R: ByteSource> {
    buffer: VecDeque<u8>,
    stream: R,
    presentation_context_id: Option<u8>,
    max_data_length: u32,
    last_pdu: bool,
    read_buffer: ::bytes::BytesMut,
    drift: u64,
    received: Ghost<Seq<u8>>,
}

impl<R: ByteSource> PDataReader<R> {
    /// Bytes decoded and waiting to be read.
    pub closed spec fn queue(&self) -> Seq<u8> {
        self.buffer@
    }

    /// Bytes received from the transport and not decoded yet.
    pub closed spec fn wire(&self) -> Seq<u8> {
        bytes_mut_contents(self.read_buffer)
    }

    /// Whether no more PDUs are to be received.
    pub closed spec fn last_pdu(&self) -> bool {
        self.last_pdu
    }

    /// The presentation context of the first value received.
    pub closed spec fn context(&self) -> Option<u8> {
        self.presentation_context_id
    }

    /// How many values came on another presentation context than the
    /// first one seen.
    pub closed spec fn drift(&self) -> nat {
        self.drift as nat
    }

    pub closed spec fn max_data_length(&self) -> u32 {
        self.max_data_length
    }

    /// Every byte received from the transport so far, in order.
    pub closed spec fn received(&self) -> Seq<u8> {
        self.received@
    }

    pub fn new(stream: R, max_data_length: u32) -> (r: Self)
        ensures
            r.queue() == Seq::<u8>::empty(),
            r.wire() == Seq::<u8>::empty(),
            !r.last_pdu(),
            r.context() is None,
            r.drift() == 0,
            r.max_data_length() == max_data_length,
            r.received() == Seq::<u8>::empty(),
    {
        PDataReader {
            buffer: VecDeque::with_capacity(max_data_length as usize),
            stream,
            presentation_context_id: None,
            max_data_length,
            last_pdu: false,
            read_buffer: wire_with_capacity(max_data_length as usize),
            drift: 0,
            received: Ghost(Seq::empty()),
        }
    }

    /// Declare no intention to read more PDUs from the remote node.
    ///
    /// Reading goes on with the bytes already decoded, and then reports
    /// the end of the data, without receiving more PDUs.
    pub fn stop_receiving(&mut self) -> (r: Result<(), R::Error>)
        ensures
            r is Ok,
            final(self).last_pdu(),
            final(self).queue() == old(self).queue(),
            final(self).wire() == old(self).wire(),
            final(self).context() == old(self).context(),
            final(self).drift() == old(self).drift(),
            final(self).max_data_length() == old(self).max_data_length(),
            final(self).received() == old(self).received(),
    {
        self.last_pdu = true;
        Ok(())
    }

    /// How many values have arrived on another presentation context than
    /// the first one seen (at most `u64::MAX`).
    pub fn presentation_context_mismatches(&self) -> (r: u64)
        ensures
            r == self.drift(),
    {
        self.drift
    }

    /// Whether the P-Data has ended: nothing is queued and no more PDUs
    /// are to be received. A read that returns 0 bytes while this is false
    /// met a PDU without payload, and reading may go on.
    pub fn at_end(&self) -> (r: bool)
        ensures
            r == (self.queue().len() == 0 && self.last_pdu()),
    {
        self.buffer.len() == 0 && self.last_pdu
    }

    /// Takes in the values of a P-Data-TF PDU: queues their payloads and
    /// notes their presentation context and last flag.
    fn accept_values(&mut self, values: Vec<PDataValue>)
        ensures
            final(self).queue() == old(self).queue() + payloads(pdvs_view(values@)),
            final(self).last_pdu() == last_after(old(self).last_pdu(), pdvs_view(values@)),
            final(self).context() == context_after(old(self).context(), pdvs_view(values@)),
            final(self).drift() == drift_after(
                old(self).drift(),
                old(self).context(),
                pdvs_view(values@),
            ),
            final(self).wire() == old(self).wire(),
            final(self).max_data_length() == old(self).max_data_length(),
            final(self).received() == old(self).received(),
    {
        let ghost vs = pdvs_view(values@);
        let mut i: usize = 0;
        proof {
            assert(vs.take(0) =~= Seq::<PdvView>::empty());
            assert(old(self).buffer@ + Seq::<u8>::empty() =~= old(self).buffer@);
        }
        while i < values.len()
            invariant
                i <= values@.len(),
                vs == pdvs_view(values@),
                self.buffer@ == old(self).buffer@ + payloads(vs.take(i as int)),
                self.last_pdu == last_after(old(self).last_pdu, vs.take(i as int)),
                self.presentation_context_id == context_after(
                    old(self).presentation_context_id,
                    vs.take(i as int),
                ),
                self.drift as nat == drift_after(
                    old(self).drift as nat,
                    old(self).presentation_context_id,
                    vs.take(i as int),
                ),
                self.read_buffer == old(self).read_buffer,
                    self.received == old(self).received,
                self.max_data_length == old(self).max_data_length,
            decreases values@.len() - i,
        {
            let v = &values[i];
            let ghost ctx = self.presentation_context_id;
            match self.presentation_context_id {
                None => {
                    self.presentation_context_id = Some(v.presentation_context_id);
                },
                Some(cid) => {
                    if cid != v.presentation_context_id {
                        if self.drift < u64::MAX {
                            self.drift = self.drift + 1;
                        }
                    }
                },
            }
            let ghost base = self.buffer@;
            let ghost pc = self.presentation_context_id;
            let ghost dr = self.drift;
            let ghost lp = self.last_pdu;
            let mut j: usize = 0;
            while j < v.data.len()
                invariant
                    j <= v.data@.len(),
                    self.buffer@ == base + v.data@.take(j as int),
                    self.presentation_context_id == pc,
                    self.drift == dr,
                    self.last_pdu == lp,
                    self.read_buffer == old(self).read_buffer,
                    self.received == old(self).received,
                    self.max_data_length == old(self).max_data_length,
                decreases v.data@.len() - j,
            {
                self.buffer.push_back(v.data[j]);
                assert(v.data@.take(j + 1) =~= v.data@.take(j as int).push(v.data@[j as int]));
                assert(self.buffer@ =~= base + v.data@.take(j + 1));
                j = j + 1;
            }
            self.last_pdu = v.is_last;
            proof {
                let t = vs.take(i + 1);
                assert(t.drop_last() =~= vs.take(i as int));
                assert(t.last() == v@);
                assert(v.data@.take(j as int) =~= v.data@);
                assert(self.buffer@ =~= old(self).buffer@ + payloads(t));
                if i > 0 {
                    assert(t[0] == vs.take(i as int)[0]);
                }
            }
            i = i + 1;
        }
        assert(vs.take(i as int) =~= vs);
    }

    /// Moves as many queued bytes as fit to the front of `buf`.
    fn serve(&mut self, buf: &mut [u8]) -> (n: usize)
        ensures
            served(old(self).queue(), old(buf)@, final(buf)@, n as int),
            final(self).queue() == old(self).queue().skip(n as int),
            final(self).wire() == old(self).wire(),
            final(self).last_pdu() == old(self).last_pdu(),
            final(self).context() == old(self).context(),
            final(self).drift() == old(self).drift(),
            final(self).max_data_length() == old(self).max_data_length(),
            final(self).received() == old(self).received(),
    {
        let n = if self.buffer.len() < buf.len() {
            self.buffer.len()
        } else {
            buf.len()
        };
        let mut i: usize = 0;
        while i < n
            invariant
                i <= n,
                n <= old(self).buffer@.len(),
                n <= old(buf)@.len(),
                buf@.len() == old(buf)@.len(),
                self.buffer@ == old(self).buffer@.skip(i as int),
                buf@ == old(self).buffer@.take(i as int) + old(buf)@.skip(i as int),
                self.read_buffer == old(self).read_buffer,
                    self.received == old(self).received,
                self.last_pdu == old(self).last_pdu,
                self.presentation_context_id == old(self).presentation_context_id,
                self.drift == old(self).drift,
                self.max_data_length == old(self).max_data_length,
            decreases n - i,
        {
            let ghost before = self.buffer@;
            match self.buffer.pop_front() {
                Some(b) => {
                    buf[i] = b;
                },
                None => {},
            }
            proof {
                assert(before.len() > 0);
                assert(self.buffer@ =~= old(self).buffer@.skip(i + 1));
                assert(buf@ =~= old(self).buffer@.take(i + 1) + old(buf)@.skip(i + 1));
            }
            i = i + 1;
        }
        n
    }

    /// Reads P-Data bytes into `buf` and returns how many were read.
    ///
    /// Bytes already decoded are served first. Where there are none, the
    /// end of the data gives 0; otherwise the next PDU is received, which
    /// must be a P-Data-TF PDU, and its values are taken in.
    pub fn read(&mut self, buf: &mut [u8]) -> (r: Result<usize, ReadError<R::Error>>)
        ensures
            final(self).max_data_length() == old(self).max_data_length(),
            old(self).queue().len() > 0 ==> {
                &&& r is Ok
                &&& served(old(self).queue(), old(buf)@, final(buf)@, r->Ok_0 as int)
                &&& final(self).queue() == old(self).queue().skip(r->Ok_0 as int)
                &&& final(self).wire() == old(self).wire()
                &&& final(self).last_pdu() == old(self).last_pdu()
                &&& final(self).context() == old(self).context()
                &&& final(self).drift() == old(self).drift()
            },
            old(self).queue().len() == 0 && old(self).last_pdu() ==> {
                &&& r is Ok
                &&& r->Ok_0 == 0
                &&& final(buf)@ == old(buf)@
                &&& final(self).queue() == old(self).queue()
                &&& final(self).wire() == old(self).wire()
                &&& final(self).last_pdu()
                &&& final(self).context() == old(self).context()
                &&& final(self).drift() == old(self).drift()
            },
            old(self).queue().len() > 0 || old(self).last_pdu() ==> final(self).received() == old(
                self,
            ).received(),
            final(self).received().len() >= old(self).received().len(),
            final(self).received().take(old(self).received().len() as int) == old(
                self,
            ).received(),
            old(self).queue().len() == 0 && !old(self).last_pdu() ==> {
                let w = seen(old(self).wire(), old(self).received(), final(self).received());
                let vs = pdata_at(w)->Some_0;
                &&& holds_whole_pdu(old(self).wire()) ==> final(self).received() == old(
                    self,
                ).received()
                &&& pdata_at(old(self).wire()) is Some ==> (r is Ok)
                &&& holds_whole_pdu(old(self).wire()) && old(self).wire()[0] != 0x04u8 ==> (r is Err
                    && r->Err_0 is UnexpectedPdu)
                &&& holds_whole_pdu(old(self).wire()) && old(self).wire()[0] == 0x04u8 && pdvs_of(
                    pdu_body(old(self).wire()),
                ) is None ==> (r is Err && r->Err_0 is Pdu)
                &&& r is Ok ==> {
                    &&& pdata_at(w) is Some
                    &&& final(self).wire() == w.skip(pdu_total_len(w))
                    &&& served(payloads(vs), old(buf)@, final(buf)@, r->Ok_0 as int)
                    &&& final(self).queue() == payloads(vs).skip(r->Ok_0 as int)
                    &&& final(self).last_pdu() == last_after(false, vs)
                    &&& final(self).context() == context_after(old(self).context(), vs)
                    &&& final(self).drift() == drift_after(
                        old(self).drift(),
                        old(self).context(),
                        vs,
                    )
                }
                &&& r is Err ==> {
                    &&& final(buf)@ == old(buf)@
                    &&& final(self).queue() == old(self).queue()
                    &&& !final(self).last_pdu()
                    &&& final(self).context() == old(self).context()
                    &&& final(self).drift() == old(self).drift()
                }
                &&& r is Err && r->Err_0 is Pdu ==> {
                    &&& r->Err_0->Pdu_0 == PduError::MalformedPData
                    &&& final(self).wire() == w
                    &&& holds_whole_pdu(w)
                    &&& w[0] == 0x04u8
                    &&& pdvs_of(pdu_body(w)) is None
                }
                &&& r is Err && r->Err_0 is UnexpectedPdu ==> {
                    &&& holds_whole_pdu(w)
                    &&& w[0] != 0x04u8
                    &&& final(self).wire() == w.skip(pdu_total_len(w))
                }
                &&& r is Err && (r->Err_0 is ConnectionClosed || r->Err_0 is Transport) ==> {
                    &&& !holds_whole_pdu(old(self).wire())
                    &&& !holds_whole_pdu(w)
                    &&& final(self).wire() == w
                }
            },
    {
        if self.buffer.len() == 0 {
            if self.last_pdu {
                // reached the end of the P-Data stream
                return Ok(0);
            }
            let values = match self.next_pdu() {
                Ok(values) => values,
                Err(e) => {
                    return Err(e);
                },
            };
            self.accept_values(values);
            assert(Seq::<u8>::empty() + payloads(pdvs_view(values@)) =~= payloads(
                pdvs_view(values@),
            ));
        }
        Ok(self.serve(buf))
    }

    /// Receives bytes until the wire buffer starts with a whole PDU, and
    /// takes that PDU off it.
    fn next_pdu(&mut self) -> (r: Result<Vec<PDataValue>, ReadError<R::Error>>)
        ensures
            final(self).queue() == old(self).queue(),
            final(self).last_pdu() == old(self).last_pdu(),
            final(self).context() == old(self).context(),
            final(self).drift() == old(self).drift(),
            final(self).max_data_length() == old(self).max_data_length(),
            final(self).received().len() >= old(self).received().len(),
            final(self).received().take(old(self).received().len() as int) == old(
                self,
            ).received(),
            holds_whole_pdu(old(self).wire()) ==> final(self).received() == old(self).received(),
            pdata_at(old(self).wire()) is Some ==> (r is Ok),
            holds_whole_pdu(old(self).wire()) && old(self).wire()[0] != 0x04u8 ==> (r is Err
                && r->Err_0 is UnexpectedPdu),
            holds_whole_pdu(old(self).wire()) && old(self).wire()[0] == 0x04u8 && pdvs_of(
                pdu_body(old(self).wire()),
            ) is None ==> (r is Err && r->Err_0 is Pdu),
            r is Ok ==> {
                let w = seen(old(self).wire(), old(self).received(), final(self).received());
                &&& pdata_at(w) == Some(pdvs_view(r->Ok_0@))
                &&& final(self).wire() == w.skip(pdu_total_len(w))
            },
            r is Err && r->Err_0 is Pdu ==> {
                let w = seen(old(self).wire(), old(self).received(), final(self).received());
                &&& r->Err_0->Pdu_0 == PduError::MalformedPData
                &&& final(self).wire() == w
                &&& holds_whole_pdu(w)
                &&& w[0] == 0x04u8
                &&& pdvs_of(pdu_body(w)) is None
            },
            r is Err && r->Err_0 is UnexpectedPdu ==> {
                let w = seen(old(self).wire(), old(self).received(), final(self).received());
                &&& holds_whole_pdu(w)
                &&& w[0] != 0x04u8
                &&& final(self).wire() == w.skip(pdu_total_len(w))
            },
            r is Err && (r->Err_0 is ConnectionClosed || r->Err_0 is Transport) ==> {
                &&& !holds_whole_pdu(old(self).wire())
                &&& !holds_whole_pdu(final(self).wire())
                &&& final(self).wire() == seen(old(self).wire(), old(self).received(), final(self).received())
            },
    {
        loop
            invariant
                self.buffer@ == old(self).buffer@,
                self.last_pdu == old(self).last_pdu,
                self.presentation_context_id == old(self).presentation_context_id,
                self.drift == old(self).drift,
                self.max_data_length == old(self).max_data_length,
                self.wire().len() >= old(self).wire().len(),
                self.wire().take(old(self).wire().len() as int) == old(self).wire(),
                self.received().len() >= old(self).received().len(),
                self.received().take(old(self).received().len() as int) == old(self).received(),
                self.wire() == seen(old(self).wire(), old(self).received(), self.received()),
                holds_whole_pdu(old(self).wire()) ==> self.received() == old(self).received(),
            decreases missing(self.wire()),
        {
            let ghost w = self.wire();
            let wire = wire_bytes(&self.read_buffer);
            match read_pdu(wire, self.max_data_length, false) {
                Err(e) => {
                    return Err(ReadError::Pdu(e));
                },
                Ok(Some((pdu, n))) => {
                    wire_advance(&mut self.read_buffer, n);
                    match pdu {
                        Pdu::PData { data } => {
                            proof {
                                assert(w.len() >= 6 && w.len() >= pdu_total_len(w));
                                assert(w[0] == 0x04u8);
                                assert(pdata_at(w) == Some(pdvs_view(data@)));
                                assert(w.take(old(self).wire().len() as int) == old(self).wire());
                            }
                            return Ok(data);
                        },
                        Pdu::Other { .. } => {
                            proof {
                                assert(w.len() >= 6 && w.len() >= pdu_total_len(w));
                                assert(w[0] != 0x04u8);
                                assert(holds_whole_pdu(w));
                                assert(w.take(old(self).wire().len() as int) == old(self).wire());
                            }
                            return Err(ReadError::UnexpectedPdu);
                        },
                    }
                },
                Ok(None) => {},
            }
            let recv = match self.stream.recv() {
                Ok(recv) => recv,
                Err(e) => {
                    return Err(ReadError::Transport(e));
                },
            };
            wire_extend(&mut self.read_buffer, recv.as_slice());
            let ghost r0 = self.received@;
            self.received = Ghost(r0 + recv@);
            proof {
                let n0 = old(self).received().len() as int;
                assert((r0 + recv@).skip(n0) =~= r0.skip(n0) + recv@);
                assert((r0 + recv@).take(n0) =~= r0.take(n0));
                assert(self.wire() =~= seen(old(self).wire(), old(self).received(), self.received()));
            }
            if recv.len() == 0 {
                return Err(ReadError::ConnectionClosed);
            }
            proof {
                let w2 = self.wire();
                assert(w2.take(w.len() as int) =~= w);
                assert(w2.take(old(self).wire().len() as int) =~= old(self).wire());
                assert(w.len() < 6 || w.len() < pdu_total_len(w));
                if w.len() >= 6 {
                    assert(w2[2] == w[2] && w2[3] == w[3] && w2[4] == w[4] && w2[5] == w[5]);
                    assert(pdu_total_len(w2) == pdu_total_len(w));
                } else if w2.len() >= 6 {
                    assert(pdu_total_len(w2) <= u32::MAX + 6);
                }
                assert(missing(w2) < missing(w));
            }
        }
    }
}

} // verus!
