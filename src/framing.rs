//! Sizing constants and the in-place P-Data-TF header stamp.
use vstd::prelude::*;

verus! {

/// Smallest maximum PDU length that an association may negotiate.
pub const MINIMUM_PDU_SIZE: u32 = 4096;

/// Size of the common PDU header: type, reserved byte and 4-byte length.
pub const PDU_HEADER_SIZE: u32 = 6;

/// Size of the P-Data-TF header that precedes the payload of its single PDV:
/// the common PDU header, the PDV item length, the presentation context id
/// and the message control header.
pub const PDATA_HEADER_LEN: usize = 12;

/// Big-endian encoding of a 32-bit unsigned integer.
pub open spec fn be32(x: u32) -> Seq<u8> {
    seq![(x >> 24u32) as u8, (x >> 16u32) as u8, (x >> 8u32) as u8, x as u8]
}

/// The integer whose big-endian encoding is the four bytes given.
pub open spec fn from_be32(b0: u8, b1: u8, b2: u8, b3: u8) -> u32 {
    ((b0 as u32) << 24u32) | ((b1 as u32) << 16u32) | ((b2 as u32) << 8u32) | (b3 as u32)
}

pub proof fn lemma_be32_round_trip(x: u32)
    ensures
        from_be32(be32(x)[0], be32(x)[1], be32(x)[2], be32(x)[3]) == x,
{
    let b0 = (x >> 24u32) as u8;
    let b1 = (x >> 16u32) as u8;
    let b2 = (x >> 8u32) as u8;
    let b3 = x as u8;
    assert(((b0 as u32) << 24u32) | ((b1 as u32) << 16u32) | ((b2 as u32) << 8u32) | (b3 as u32)
        == x) by (bit_vector)
        requires
            b0 == (x >> 24u32) as u8,
            b1 == (x >> 16u32) as u8,
            b2 == (x >> 8u32) as u8,
            b3 == x as u8,
    ;
}

/// Message control header of a data PDV: bit 1 marks the last fragment.
pub open spec fn data_control(is_last: bool) -> u8 {
    if is_last { 0x02u8 } else { 0x00u8 }
}

/// Header fields after stamping a buffer of `len` bytes (header included):
/// the PDU length, then the PDV item length.
pub open spec fn stamped_header(buffer: Seq<u8>, is_last: bool) -> Seq<u8> {
    let data_len = (buffer.len() - 12) as u32;
    buffer.take(2) + be32((data_len + 6) as u32) + be32((data_len + 2) as u32) + seq![
        buffer[10],
        data_control(is_last),
    ] + buffer.skip(12)
}

/// A complete P-Data-TF PDU holding one data PDV with the given payload.
pub open spec fn pdata_pdu(pcid: u8, payload: Seq<u8>, is_last: bool) -> Seq<u8> {
    seq![0x04u8, 0x00u8] + be32((payload.len() + 6) as u32) + be32((payload.len() + 2) as u32)
        + seq![pcid, data_control(is_last)] + payload
}

/// Stamping a header skeleton that starts with the P-Data-TF type gives
/// the complete PDU of its payload.
pub proof fn lemma_stamped_is_pdu(buffer: Seq<u8>, is_last: bool)
    requires
        buffer.len() >= 12,
        buffer.len() - 12 + 6 <= u32::MAX,
        buffer[0] == 0x04u8,
        buffer[1] == 0x00u8,
    ensures
        stamped_header(buffer, is_last) == pdata_pdu(buffer[10], buffer.skip(12), is_last),
{
    assert(buffer.take(2) =~= seq![0x04u8, 0x00u8]);
    assert(buffer.skip(12).len() == buffer.len() - 12);
    assert(stamped_header(buffer, is_last) =~= pdata_pdu(buffer[10], buffer.skip(12), is_last));
}

/// Maximum number of PDV payload bytes that fit in a single PDU whose
/// PDU-length property is `pdu_len` (type and reserved byte not counted).
pub fn calculate_max_data_len_single(pdu_len: u32) -> (r: u32)
    requires
        pdu_len >= 6,
    ensures
        r == pdu_len - 6,
{
    pdu_len - 4 - 2
}

/// Writes a 32-bit big-endian value at `at..at + 4`.
fn put_be32(buffer: &mut Vec<u8>, at: usize, x: u32)
    requires
        at + 4 <= old(buffer).len(),
    ensures
        final(buffer)@ == old(buffer)@.take(at as int) + be32(x) + old(buffer)@.skip(at + 4),
{
    buffer.set(at, (x >> 24u32) as u8);
    buffer.set(at + 1, (x >> 16u32) as u8);
    buffer.set(at + 2, (x >> 8u32) as u8);
    buffer.set(at + 3, x as u8);
    assert(buffer@ =~= old(buffer)@.take(at as int) + be32(x) + old(buffer)@.skip(at + 4));
}

/// Stamps the P-Data-TF header of `buffer`, whose first 12 bytes are the
/// header skeleton and whose remaining bytes are the payload of its PDV.
/// Bytes 0, 1 and 10 are left as they are.
pub fn setup_pdata_header(buffer: &mut Vec<u8>, is_last: bool)
    requires
        old(buffer).len() >= PDATA_HEADER_LEN,
        old(buffer).len() - 12 + 6 <= u32::MAX,
    ensures
        final(buffer)@ == stamped_header(old(buffer)@, is_last),
{
    let data_len = (buffer.len() - 12) as u32;
    // full PDU length (minus PDU type and reserved byte)
    let pdu_len = data_len + 4 + 2;
    put_be32(buffer, 2, pdu_len);
    // presentation data value length (data + the 2 bytes below)
    let pdv_data_len = data_len + 2;
    put_be32(buffer, 6, pdv_data_len);
    // message control header
    buffer.set(11, if is_last { 0x02 } else { 0x00 });
    assert(buffer@ =~= stamped_header(old(buffer)@, is_last));
}

} // verus!
