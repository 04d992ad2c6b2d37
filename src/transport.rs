//! The transports that P-Data PDUs are sent to and received from.
use vstd::prelude::*;

verus! {

/// A transport that accepts whole PDUs.
///
/// A sink either takes all of the bytes handed to it, in order, or fails;
/// looping over partial writes is its own business.
pub trait PduSink {
    type Error;

    /// Every byte that the sink has accepted so far, in order.
    spec fn sent(&self) -> Seq<u8>;

    /// Whether the sink takes whatever it is handed, never failing.
    spec fn accepts_all(&self) -> bool;

    fn send_all(&mut self, bytes: &[u8]) -> (r: Result<(), Self::Error>)
        ensures
            r is Ok ==> final(self).sent() == old(self).sent() + bytes@,
            old(self).accepts_all() ==> r is Ok && final(self).accepts_all(),
    ;
}

impl PduSink for Vec<u8> {
    type Error = ();

    open spec fn sent(&self) -> Seq<u8> {
        self@
    }

    open spec fn accepts_all(&self) -> bool {
        true
    }

    fn send_all(&mut self, bytes: &[u8]) -> (r: Result<(), ()>)
        ensures
            r is Ok,
            final(self)@ == old(self)@ + bytes@,
    {
        self.extend_from_slice(bytes);
        Ok(())
    }
}

impl<'a, S: PduSink> PduSink for &'a mut S {
    type Error = S::Error;

    open spec fn sent(&self) -> Seq<u8> {
        (**self).sent()
    }

    open spec fn accepts_all(&self) -> bool {
        (**self).accepts_all()
    }

    fn send_all(&mut self, bytes: &[u8]) -> (r: Result<(), S::Error>) {
        (**self).send_all(bytes)
    }
}

/// A transport that hands over the bytes received from the peer.
pub trait ByteSource {
    type Error;

    /// The next bytes available, waiting for some where none are; no bytes
    /// at all once the peer has closed the connection.
    fn recv(&mut self) -> Result<Vec<u8>, Self::Error>;
}

impl ByteSource for std::collections::VecDeque<u8> {
    type Error = ();

    fn recv(&mut self) -> (r: Result<Vec<u8>, ()>)
        ensures
            r is Ok,
            r->Ok_0@ == old(self)@,
            final(self)@ == Seq::<u8>::empty(),
    {
        let mut out: Vec<u8> = Vec::new();
        while self.len() > 0
            invariant
                out@ + self@ == old(self)@,
            decreases self@.len(),
        {
            let ghost before = self@;
            match self.pop_front() {
                Some(b) => {
                    out.push(b);
                    assert(out@ + self@ =~= old(self)@) by {
                        assert(before =~= seq![b] + self@);
                    }
                },
                None => {},
            }
        }
        assert(out@ =~= old(self)@);
        Ok(out)
    }
}

impl<'a, S: ByteSource> ByteSource for &'a mut S {
    type Error = S::Error;

    fn recv(&mut self) -> (r: Result<Vec<u8>, S::Error>) {
        (**self).recv()
    }
}

} // verus!
