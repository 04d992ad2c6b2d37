//! P-Data fragmentation and reassembly for the DICOM Upper Layer protocol,
//! with recovery of encapsulated image frame boundaries.

pub mod frames;
pub mod framing;
pub mod pdu;
pub mod reader;
pub mod roundtrip;
pub mod transport;
pub mod wire;
pub mod writer;
