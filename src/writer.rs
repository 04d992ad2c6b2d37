//! Splitting a byte stream into P-Data-TF PDUs.
use vstd::prelude::*;
use vstd::slice::slice_subrange;

use crate::framing::{
    calculate_max_data_len_single, lemma_stamped_is_pdu, pdata_pdu, setup_pdata_header,
    PDATA_HEADER_LEN,
};
use crate::transport::PduSink;

verus! {

/// The PDUs that carry `s` when it is written whole and the writer is then
/// finished: full PDUs of `max` payload bytes, then the rest, marked as the
/// last one.
pub open spec fn written(pcid: u8, s: Seq<u8>, max: nat) -> Seq<u8>
    decreases s.len(),
{
    if s.len() <= max || max == 0 {
        pdata_pdu(pcid, s, true)
    } else {
        pdata_pdu(pcid, s.take(max as int), false) + written(pcid, s.skip(max as int), max)
    }
}

/// A P-Data value writer.
///
/// Bytes written to it are gathered into one P-Data-TF PDU at a time; a
/// PDU is sent as soon as it is full, so that the bytes are split over as
/// many PDUs as needed. `finish` sends the last one, marked as such.
///
/// The first 12 bytes of `buffer` are the header of the PDU under
/// construction, stamped just before it is sent; the rest is its payload.
/// After `finish` has succeeded the buffer is empty.
#[must_use]
pub struct PDataWriter<W: PduSink> {
    buffer: Vec<u8>,
    stream: W,
    max_data_len: u32,
}

impl<W: PduSink> PDataWriter<W> {
    pub closed spec fn wf(&self) -> bool {
        &&& 12 <= self.max_data_len
        &&& self.max_data_len + 12 <= usize::MAX
        &&& self.max_data_len + 6 <= u32::MAX
        &&& (self.buffer@.len() == 0 || {
            &&& self.buffer@.len() >= 12
            &&& self.buffer@.len() <= self.max_data_len + 12
            &&& self.buffer@[0] == 0x04u8
            &&& self.buffer@[1] == 0x00u8
        })
    }

    /// Whether the last PDU has been sent.
    pub closed spec fn finished(&self) -> bool {
        self.buffer@.len() == 0
    }

    /// Everything that the transport has accepted so far.
    pub closed spec fn sent(&self) -> Seq<u8> {
        self.stream.sent()
    }

    /// Whether the transport takes whatever it is handed.
    pub closed spec fn accepts_all(&self) -> bool {
        self.stream.accepts_all()
    }

    /// The 12 header bytes of the PDU under construction.
    pub closed spec fn header(&self) -> Seq<u8> {
        self.buffer@.take(12)
    }

    /// The presentation context that every PDV is sent on.
    pub closed spec fn presentation_context_id(&self) -> u8 {
        self.buffer@[10]
    }

    /// Payload bytes written but not sent yet.
    pub closed spec fn pending(&self) -> Seq<u8> {
        self.buffer@.skip(12)
    }

    /// Most payload bytes that one PDU carries.
    pub closed spec fn max_data_len(&self) -> nat {
        self.max_data_len as nat
    }

    /// Payload bytes that still fit in the PDU under construction.
    pub open spec fn room(&self) -> int {
        self.max_data_len() - self.pending().len()
    }

    /// Construct a new P-Data value writer on `stream`.
    ///
    /// `max_pdu_length` is the maximum value of the PDU-length property.
    pub fn new(stream: W, presentation_context_id: u8, max_pdu_length: u32) -> (w: Self)
        requires
            max_pdu_length >= 18,
            max_pdu_length + 6 <= usize::MAX,
        ensures
            w.wf(),
            !w.finished(),
            w.sent() == stream.sent(),
            w.accepts_all() == stream.accepts_all(),
            w.header() == seq![
                0x04u8,
                0x00u8,
                0xFFu8,
                0xFFu8,
                0xFFu8,
                0xFFu8,
                0xFFu8,
                0xFFu8,
                0xFFu8,
                0xFFu8,
                presentation_context_id,
                0xFFu8,
            ],
            w.presentation_context_id() == presentation_context_id,
            w.pending() == Seq::<u8>::empty(),
            w.max_data_len() == max_pdu_length - 6,
    {
        let max_data_length = calculate_max_data_len_single(max_pdu_length);
        let mut buffer: Vec<u8> = Vec::with_capacity(max_data_length as usize + PDATA_HEADER_LEN);
        // PDU-type + reserved byte
        buffer.push(0x04);
        buffer.push(0x00);
        // full PDU length and presentation data length, unknown at this point
        let mut i: usize = 0;
        while i < 8
            invariant
                0 <= i <= 8,
                buffer@.len() == 2 + i,
                buffer@[0] == 0x04u8,
                buffer@[1] == 0x00u8,
                forall|k: int| 2 <= k < 2 + i ==> buffer@[k] == 0xFFu8,
            decreases 8 - i,
        {
            buffer.push(0xFF);
            i = i + 1;
        }
        // presentation context id
        buffer.push(presentation_context_id);
        // message control header, unknown at this point
        buffer.push(0xFF);
        assert(buffer@.take(12) =~= seq![
            0x04u8,
            0x00u8,
            0xFFu8,
            0xFFu8,
            0xFFu8,
            0xFFu8,
            0xFFu8,
            0xFFu8,
            0xFFu8,
            0xFFu8,
            presentation_context_id,
            0xFFu8,
        ]);
        PDataWriter { stream, max_data_len: max_data_length, buffer }
    }

    /// Sends the PDU under construction, not marked as the last one, and
    /// keeps its header skeleton for the next one.
    fn dispatch_pdu(&mut self) -> (r: Result<(), W::Error>)
        requires
            old(self).wf(),
            !old(self).finished(),
        ensures
            final(self).wf(),
            !final(self).finished(),
            final(self).presentation_context_id() == old(self).presentation_context_id(),
            final(self).max_data_len() == old(self).max_data_len(),
            old(self).accepts_all() ==> r is Ok && final(self).accepts_all(),
            r is Ok ==> final(self).sent() == old(self).sent() + pdata_pdu(
                old(self).presentation_context_id(),
                old(self).pending(),
                false,
            ),
            r is Ok ==> final(self).pending() == Seq::<u8>::empty(),
            r is Err ==> final(self).pending() == old(self).pending(),
    {
        proof {
            lemma_stamped_is_pdu(self.buffer@, false);
        }
        setup_pdata_header(&mut self.buffer, false);
        let r = self.stream.send_all(self.buffer.as_slice());
        match r {
            Ok(()) => {
                // back to just the header
                self.buffer.truncate(PDATA_HEADER_LEN);
                assert(self.buffer@.skip(12) =~= Seq::<u8>::empty());
                Ok(())
            },
            Err(e) => Err(e),
        }
    }

    /// Appends as much of `buf` as fits in the PDU under construction and
    /// returns how many bytes were taken.
    ///
    /// Where `buf` does not fit whole, the PDU is filled up and sent, and
    /// the rest of `buf` is left to the next call.
    pub fn write(&mut self, buf: &[u8]) -> (r: Result<usize, W::Error>)
        requires
            old(self).wf(),
            !old(self).finished(),
        ensures
            final(self).wf(),
            !final(self).finished(),
            final(self).presentation_context_id() == old(self).presentation_context_id(),
            final(self).max_data_len() == old(self).max_data_len(),
            old(self).accepts_all() ==> r is Ok && final(self).accepts_all(),
            buf@.len() <= old(self).room() ==> {
                &&& r is Ok
                &&& r->Ok_0 == buf@.len()
                &&& final(self).pending() == old(self).pending() + buf@
                &&& final(self).sent() == old(self).sent()
            },
            buf@.len() > old(self).room() && r is Ok ==> {
                &&& r->Ok_0 == old(self).room()
                &&& final(self).sent() == old(self).sent() + pdata_pdu(
                    old(self).presentation_context_id(),
                    old(self).pending() + buf@.take(old(self).room()),
                    false,
                )
                &&& final(self).pending() == Seq::<u8>::empty()
            },
            buf@.len() > old(self).room() && r is Err ==> final(self).pending() == old(
                self,
            ).pending() + buf@.take(old(self).room()),
    {
        let total_len = self.max_data_len as usize + PDATA_HEADER_LEN;
        if buf.len() <= total_len - self.buffer.len() {
            // accumulate into buffer, do nothing
            self.buffer.extend_from_slice(buf);
            assert(self.buffer@.skip(12) =~= old(self).buffer@.skip(12) + buf@);
            Ok(buf.len())
        } else {
            // fill in the rest of the buffer, send PDU,
            // and leave out the rest for subsequent writes
            let n = total_len - self.buffer.len();
            let part = slice_subrange(buf, 0, n);
            self.buffer.extend_from_slice(part);
            assert(part@ =~= buf@.take(n as int));
            assert(self.buffer@.skip(12) =~= old(self).buffer@.skip(12) + buf@.take(n as int));
            match self.dispatch_pdu() {
                Ok(()) => Ok(n),
                Err(e) => Err(e),
            }
        }
    }

    /// Writes all of `buf`, sending each PDU as it fills up.
    ///
    /// What has been sent, followed by the last PDU that `finish` would
    /// send, is what writing the pending bytes and `buf` whole gives.
    pub fn write_all(&mut self, buf: &[u8]) -> (r: Result<(), W::Error>)
        requires
            old(self).wf(),
            !old(self).finished(),
        ensures
            final(self).wf(),
            !final(self).finished(),
            final(self).presentation_context_id() == old(self).presentation_context_id(),
            final(self).max_data_len() == old(self).max_data_len(),
            old(self).accepts_all() ==> r is Ok && final(self).accepts_all(),
            old(self).pending().len() + buf@.len() <= old(self).max_data_len() ==> {
                &&& r is Ok
                &&& final(self).pending() == old(self).pending() + buf@
                &&& final(self).sent() == old(self).sent()
            },
            r is Ok ==> final(self).sent() + pdata_pdu(
                old(self).presentation_context_id(),
                final(self).pending(),
                true,
            ) == old(self).sent() + written(
                old(self).presentation_context_id(),
                old(self).pending() + buf@,
                old(self).max_data_len(),
            ),
    {
        let ghost pcid = self.presentation_context_id();
        let ghost max = self.max_data_len();
        if buf.len() <= self.max_data_len as usize + PDATA_HEADER_LEN - self.buffer.len() {
            // all of it fits in the PDU under construction
            let r = self.write(buf);
            return match r {
                Ok(_) => Ok(()),
                Err(e) => Err(e),
            };
        }
        let mut pos: usize = 0;
        assert(old(self).pending().len() + buf@.len() > old(self).max_data_len());
        assert(buf@.skip(0) =~= buf@);
        while pos < buf.len()
            invariant
                pos <= buf@.len(),
                self.wf(),
                !self.finished(),
                self.presentation_context_id() == pcid,
                self.max_data_len() == max,
                pcid == old(self).presentation_context_id(),
                max == old(self).max_data_len(),
                max >= 12,
                old(self).accepts_all() ==> self.accepts_all(),
                old(self).pending().len() + buf@.len() > old(self).max_data_len(),
                old(self).sent() + written(pcid, old(self).pending() + buf@, max) == self.sent()
                    + written(pcid, self.pending() + buf@.skip(pos as int), max),
            decreases buf@.len() - pos, self.pending().len(),
        {
            let ghost rest = buf@.skip(pos as int);
            let ghost sent0 = self.sent();
            let ghost pending0 = self.pending();
            let part = slice_subrange(buf, pos, buf.len());
            assert(part@ =~= rest);
            let n = match self.write(part) {
                Ok(n) => n,
                Err(e) => {
                    return Err(e);
                },
            };
            proof {
                let room = max - pending0.len();
                if rest.len() > room {
                    let all = pending0 + rest;
                    assert(all.take(max as int) =~= pending0 + rest.take(room));
                    assert(all.skip(max as int) =~= Seq::<u8>::empty() + rest.skip(n as int));
                    assert(written(pcid, all, max) == pdata_pdu(pcid, all.take(max as int), false)
                        + written(pcid, all.skip(max as int), max));
                    assert(buf@.skip(pos + n) =~= rest.skip(n as int));
                    assert(self.sent() + written(pcid, self.pending() + buf@.skip(pos + n), max)
                        =~= sent0 + written(pcid, pending0 + rest, max));
                } else {
                    assert(buf@.skip(pos + n) =~= Seq::<u8>::empty());
                    assert(self.pending() + buf@.skip(pos + n) =~= pending0 + rest);
                }
            }
            pos = pos + n;
        }
        proof {
            assert(self.pending() + buf@.skip(pos as int) =~= self.pending());
        }
        Ok(())
    }

    /// Writing does not send a partly filled PDU: that would misstate
    /// where the message ends. Nothing is done.
    pub fn flush(&mut self) -> (r: Result<(), W::Error>)
        ensures
            r is Ok,
            *final(self) == *old(self),
    {
        Ok(())
    }

    /// Declares that all P-Data has been written: sends the PDU under
    /// construction, marked as the last one.
    ///
    /// Once this has succeeded, a further call sends nothing.
    pub fn finish(&mut self) -> (r: Result<(), W::Error>)
        requires
            old(self).wf(),
        ensures
            final(self).wf(),
            old(self).accepts_all() ==> r is Ok && final(self).accepts_all(),
            old(self).finished() ==> r is Ok && final(self).sent() == old(self).sent()
                && final(self).finished(),
            !old(self).finished() && r is Ok ==> {
                &&& final(self).finished()
                &&& final(self).sent() == old(self).sent() + pdata_pdu(
                    old(self).presentation_context_id(),
                    old(self).pending(),
                    true,
                )
            },
            !old(self).finished() && r is Err ==> {
                &&& !final(self).finished()
                &&& final(self).presentation_context_id() == old(self).presentation_context_id()
                &&& final(self).pending() == old(self).pending()
                &&& final(self).max_data_len() == old(self).max_data_len()
            },
    {
        self.finish_impl()
    }

    fn finish_impl(&mut self) -> (r: Result<(), W::Error>)
        requires
            old(self).wf(),
        ensures
            final(self).wf(),
            old(self).accepts_all() ==> r is Ok && final(self).accepts_all(),
            old(self).finished() ==> r is Ok && final(self).sent() == old(self).sent()
                && final(self).finished(),
            !old(self).finished() && r is Ok ==> {
                &&& final(self).finished()
                &&& final(self).sent() == old(self).sent() + pdata_pdu(
                    old(self).presentation_context_id(),
                    old(self).pending(),
                    true,
                )
            },
            !old(self).finished() && r is Err ==> {
                &&& !final(self).finished()
                &&& final(self).presentation_context_id() == old(self).presentation_context_id()
                &&& final(self).pending() == old(self).pending()
                &&& final(self).max_data_len() == old(self).max_data_len()
            },
    {
        if self.buffer.len() != 0 {
            // send last PDU
            proof {
                lemma_stamped_is_pdu(self.buffer@, true);
            }
            setup_pdata_header(&mut self.buffer, true);
            match self.stream.send_all(self.buffer.as_slice()) {
                Ok(()) => {},
                Err(e) => {
                    return Err(e);
                },
            }
            // clear buffer so that subsequent calls send no more PDUs
            self.buffer.clear();
        }
        Ok(())
    }
}

impl PDataWriter<Vec<u8>> {
    /// Hands over what has been sent so far to an in-memory transport,
    /// leaving it empty.
    pub fn take_output(&mut self) -> (out: Vec<u8>)
        ensures
            out@ == old(self).sent(),
            final(self).sent() == Seq::<u8>::empty(),
            final(self).wf() == old(self).wf(),
            final(self).finished() == old(self).finished(),
            final(self).accepts_all(),
            final(self).presentation_context_id() == old(self).presentation_context_id(),
            final(self).pending() == old(self).pending(),
            final(self).max_data_len() == old(self).max_data_len(),
    {
        let mut out: Vec<u8> = Vec::new();
        std::mem::swap(&mut out, &mut self.stream);
        out
    }
}

} // verus!
