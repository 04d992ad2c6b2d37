use std::collections::VecDeque;

use dicom_pdata::framing::{MINIMUM_PDU_SIZE, PDU_HEADER_SIZE};
use dicom_pdata::pdu::{read_pdu, write_pdu, PDataValue, PDataValueType, Pdu, PduError};
use dicom_pdata::reader::{PDataReader, ReadError};
use dicom_pdata::transport::ByteSource;
use dicom_pdata::writer::PDataWriter;

/// Reads the PDU at the front of `cursor` and moves past it.
fn read_pdu_from(cursor: &mut &[u8], max: u32, strict: bool) -> Result<Option<Pdu>, PduError> {
    match read_pdu(cursor, max, strict)? {
        Some((pdu, n)) => {
            *cursor = &cursor[n..];
            Ok(Some(pdu))
        }
        None => Ok(None),
    }
}

/// Reads until the end of the P-Data, as `std::io::Read::read_to_end` would.
fn read_to_end<R: ByteSource>(
    reader: &mut PDataReader<R>,
    out: &mut Vec<u8>,
) -> Result<usize, ReadError<R::Error>> {
    let mut chunk = [0u8; 1000];
    let mut total = 0;
    loop {
        let n = reader.read(&mut chunk)?;
        if n == 0 && reader.at_end() {
            return Ok(total);
        }
        out.extend_from_slice(&chunk[..n]);
        total += n;
    }
}

fn pdata(data: &[u8], presentation_context_id: u8, is_last: bool) -> Pdu {
    Pdu::PData {
        data: vec![PDataValue {
            value_type: PDataValueType::Data,
            data: data.to_owned(),
            presentation_context_id,
            is_last,
        }],
    }
}

fn stream_of(pdus: &[Pdu]) -> VecDeque<u8> {
    let mut out = Vec::new();
    for pdu in pdus {
        write_pdu(&mut out, pdu).unwrap();
    }
    out.into_iter().collect()
}

#[test]
fn test_write_pdata_and_finish() {
    let presentation_context_id = 12;

    let mut buf = Vec::new();
    {
        let mut writer = PDataWriter::new(&mut buf, presentation_context_id, MINIMUM_PDU_SIZE);
        writer.write_all(&(0..64).collect::<Vec<u8>>()).unwrap();
        writer.finish().unwrap();
    }

    let mut cursor = &buf[..];
    let same_pdu = read_pdu_from(&mut cursor, MINIMUM_PDU_SIZE, true).unwrap();

    match same_pdu.unwrap() {
        Pdu::PData { data: data_1 } => {
            let data_1 = &data_1[0];

            assert_eq!(data_1.value_type, PDataValueType::Data);
            assert_eq!(data_1.presentation_context_id, presentation_context_id);
            assert_eq!(data_1.data.len(), 64);
            assert_eq!(data_1.data, (0..64).collect::<Vec<u8>>());
        }
        pdu => panic!("Expected PData, got {:?}", pdu),
    }

    assert_eq!(cursor.len(), 0);
}

#[test]
fn test_write_large_pdata_and_finish() {
    let presentation_context_id = 32;

    let my_data: Vec<_> = (0..9000).map(|x: u32| x as u8).collect();

    let mut buf = Vec::new();
    {
        let mut writer = PDataWriter::new(&mut buf, presentation_context_id, MINIMUM_PDU_SIZE);
        writer.write_all(&my_data).unwrap();
        writer.finish().unwrap();
    }

    let mut cursor = &buf[..];
    let pdu_1 = read_pdu_from(&mut cursor, MINIMUM_PDU_SIZE, true).unwrap();
    let pdu_2 = read_pdu_from(&mut cursor, MINIMUM_PDU_SIZE, true).unwrap();
    let pdu_3 = read_pdu_from(&mut cursor, MINIMUM_PDU_SIZE, true).unwrap();

    match (pdu_1.unwrap(), pdu_2.unwrap(), pdu_3.unwrap()) {
        (
            Pdu::PData { data: data_1 },
            Pdu::PData { data: data_2 },
            Pdu::PData { data: data_3 },
        ) => {
            assert_eq!(data_1.len(), 1);
            let data_1 = &data_1[0];
            assert_eq!(data_2.len(), 1);
            let data_2 = &data_2[0];
            assert_eq!(data_3.len(), 1);
            let data_3 = &data_3[0];

            assert_eq!(data_1.value_type, PDataValueType::Data);
            assert_eq!(data_2.value_type, PDataValueType::Data);
            assert_eq!(data_1.presentation_context_id, presentation_context_id);
            assert_eq!(data_2.presentation_context_id, presentation_context_id);

            assert_eq!(
                data_1.data.len(),
                (MINIMUM_PDU_SIZE - PDU_HEADER_SIZE) as usize
            );
            assert_eq!(
                data_2.data.len(),
                (MINIMUM_PDU_SIZE - PDU_HEADER_SIZE) as usize
            );
            assert_eq!(data_3.data.len(), 820);

            assert_eq!(
                &data_1.data[..],
                (0..MINIMUM_PDU_SIZE - PDU_HEADER_SIZE)
                    .map(|x| x as u8)
                    .collect::<Vec<_>>()
            );
            assert_eq!(
                data_1.data.len() + data_2.data.len() + data_3.data.len(),
                9000
            );

            let data_1 = &data_1.data;
            let data_2 = &data_2.data;
            let data_3 = &data_3.data;

            let mut all_data: Vec<u8> = Vec::new();
            all_data.extend(data_1);
            all_data.extend(data_2);
            all_data.extend(data_3);
            assert_eq!(all_data, my_data);
        }
        x => panic!("Expected 3 PDatas, got {:?}", x),
    }

    assert_eq!(cursor.len(), 0);
}

#[test]
fn test_read_large_pdata_and_finish() {
    let presentation_context_id = 32;

    let my_data: Vec<_> = (0..9000).map(|x: u32| x as u8).collect();
    let mut pdu_stream = stream_of(&[
        pdata(&my_data[0..3000], presentation_context_id, false),
        pdata(&my_data[3000..6000], presentation_context_id, false),
        pdata(&my_data[6000..], presentation_context_id, true),
    ]);

    let mut buf = Vec::new();
    {
        let mut reader = PDataReader::new(&mut pdu_stream, MINIMUM_PDU_SIZE);
        read_to_end(&mut reader, &mut buf).unwrap();
    }
    assert_eq!(buf, my_data);
}

#[test]
fn reads_after_the_end_return_nothing_and_leave_the_transport_alone() {
    let mut pdu_stream = stream_of(&[pdata(&[1, 2, 3], 1, true)]);
    let trailing = stream_of(&[pdata(&[9], 1, true)]);
    let mut reader = PDataReader::new(&mut pdu_stream, MINIMUM_PDU_SIZE);
    let mut buf = Vec::new();
    read_to_end(&mut reader, &mut buf).unwrap();
    assert_eq!(buf, vec![1, 2, 3]);
    drop(reader);
    pdu_stream.extend(trailing.iter().copied());
    let mut reader = PDataReader::new(&mut pdu_stream, MINIMUM_PDU_SIZE);
    reader.stop_receiving().unwrap();
    let mut chunk = [0u8; 8];
    assert_eq!(reader.read(&mut chunk).unwrap(), 0);
    assert_eq!(reader.read(&mut chunk).unwrap(), 0);
    drop(reader);
    assert_eq!(pdu_stream.len(), trailing.len());
}

#[test]
fn stop_receiving_delivers_queued_bytes_then_ends() {
    let mut pdu_stream = stream_of(&[
        pdata(&[10, 11, 12, 13], 3, false),
        pdata(&[14, 15], 3, true),
    ]);
    let second_len = stream_of(&[pdata(&[14, 15], 3, true)]).len();
    let mut reader = PDataReader::new(&mut pdu_stream, MINIMUM_PDU_SIZE);
    let mut chunk = [0u8; 1];
    assert_eq!(reader.read(&mut chunk).unwrap(), 1);
    assert_eq!(chunk[0], 10);
    reader.stop_receiving().unwrap();
    let mut rest = Vec::new();
    read_to_end(&mut reader, &mut rest).unwrap();
    assert_eq!(rest, vec![11, 12, 13]);
    drop(reader);
    // the second PDU was received from the transport but never decoded
    assert!(pdu_stream.len() <= second_len);
}

#[test]
fn a_change_of_presentation_context_is_recorded_and_its_bytes_kept() {
    let mut pdu_stream = stream_of(&[pdata(&[1, 2], 5, false), pdata(&[3, 4], 7, true)]);
    let mut reader = PDataReader::new(&mut pdu_stream, MINIMUM_PDU_SIZE);
    let mut buf = Vec::new();
    read_to_end(&mut reader, &mut buf).unwrap();
    assert_eq!(buf, vec![1, 2, 3, 4]);
    assert_eq!(reader.presentation_context_mismatches(), 1);
}

#[test]
fn one_presentation_context_is_no_drift() {
    let mut pdu_stream = stream_of(&[pdata(&[1, 2], 5, false), pdata(&[3, 4], 5, true)]);
    let mut reader = PDataReader::new(&mut pdu_stream, MINIMUM_PDU_SIZE);
    let mut buf = Vec::new();
    read_to_end(&mut reader, &mut buf).unwrap();
    assert_eq!(reader.presentation_context_mismatches(), 0);
}

#[test]
fn another_pdu_type_in_the_stream_is_an_error() {
    let mut pdu_stream = stream_of(&[
        pdata(&[1, 2], 5, false),
        Pdu::Other { pdu_type: 0x07, body: vec![0, 0, 0, 0] },
    ]);
    let mut reader = PDataReader::new(&mut pdu_stream, MINIMUM_PDU_SIZE);
    let mut chunk = [0u8; 16];
    assert_eq!(reader.read(&mut chunk).unwrap(), 2);
    assert!(matches!(reader.read(&mut chunk), Err(ReadError::UnexpectedPdu)));
}

#[test]
fn a_connection_closed_mid_pdu_is_an_error() {
    let full = stream_of(&[pdata(&[1, 2, 3, 4, 5], 1, true)]);
    let mut pdu_stream: VecDeque<u8> = full.iter().copied().take(full.len() - 2).collect();
    let mut reader = PDataReader::new(&mut pdu_stream, MINIMUM_PDU_SIZE);
    let mut chunk = [0u8; 16];
    assert!(matches!(reader.read(&mut chunk), Err(ReadError::ConnectionClosed)));
}

#[test]
fn malformed_pdv_items_are_an_error() {
    // PDU length 6, item length 9: the item overruns the body
    let mut pdu_stream: VecDeque<u8> =
        vec![0x04, 0x00, 0, 0, 0, 6, 0, 0, 0, 9, 1, 0].into_iter().collect();
    let mut reader = PDataReader::new(&mut pdu_stream, MINIMUM_PDU_SIZE);
    let mut chunk = [0u8; 16];
    assert!(matches!(
        reader.read(&mut chunk),
        Err(ReadError::Pdu(PduError::MalformedPData))
    ));
}

#[test]
fn read_pdu_waits_for_a_whole_pdu() {
    let mut bytes = Vec::new();
    write_pdu(&mut bytes, &pdata(&[1, 2, 3], 1, true)).unwrap();
    assert_eq!(bytes.len(), 15);
    assert!(matches!(read_pdu(&bytes[..5], MINIMUM_PDU_SIZE, true), Ok(None)));
    assert!(matches!(read_pdu(&bytes[..14], MINIMUM_PDU_SIZE, true), Ok(None)));
    match read_pdu(&bytes, MINIMUM_PDU_SIZE, true).unwrap() {
        Some((Pdu::PData { data }, n)) => {
            assert_eq!(n, 15);
            assert_eq!(data.len(), 1);
            assert_eq!(data[0].data, vec![1, 2, 3]);
            assert!(data[0].is_last);
        }
        other => panic!("unexpected {:?}", other),
    }
}

#[test]
fn read_pdu_strict_refuses_an_oversized_pdu() {
    let mut bytes = Vec::new();
    write_pdu(&mut bytes, &pdata(&[0; 40], 1, true)).unwrap();
    assert_eq!(
        read_pdu(&bytes, 20, true).unwrap_err(),
        PduError::TooLarge { length: 46, max: 20 }
    );
    assert!(matches!(read_pdu(&bytes, 20, false), Ok(Some((Pdu::PData { .. }, 52)))));
}

#[test]
fn write_pdu_lays_out_pdv_items() {
    let pdu = Pdu::PData {
        data: vec![
            PDataValue {
                presentation_context_id: 3,
                value_type: PDataValueType::Command,
                is_last: true,
                data: vec![0xAA],
            },
            PDataValue {
                presentation_context_id: 3,
                value_type: PDataValueType::Data,
                is_last: false,
                data: vec![],
            },
        ],
    };
    let mut out = vec![0xEE];
    write_pdu(&mut out, &pdu).unwrap();
    assert_eq!(
        out,
        vec![0xEE, 0x04, 0x00, 0, 0, 0, 13, 0, 0, 0, 3, 3, 0x03, 0xAA, 0, 0, 0, 2, 3, 0x00]
    );
    match read_pdu(&out[1..], MINIMUM_PDU_SIZE, true).unwrap() {
        Some((Pdu::PData { data }, 19)) => {
            assert_eq!(data.len(), 2);
            assert_eq!(data[0].value_type, PDataValueType::Command);
            assert!(data[0].is_last);
            assert_eq!(data[1].value_type, PDataValueType::Data);
            assert!(!data[1].is_last);
            assert!(data[1].data.is_empty());
        }
        other => panic!("unexpected {:?}", other),
    }
}

#[test]
fn other_pdus_keep_their_body() {
    let mut out = Vec::new();
    write_pdu(&mut out, &Pdu::Other { pdu_type: 0x05, body: vec![0, 0, 0, 0] }).unwrap();
    assert_eq!(out, vec![0x05, 0x00, 0, 0, 0, 4, 0, 0, 0, 0]);
    match read_pdu(&out, MINIMUM_PDU_SIZE, true).unwrap() {
        Some((Pdu::Other { pdu_type, body }, 10)) => {
            assert_eq!(pdu_type, 0x05);
            assert_eq!(body, vec![0, 0, 0, 0]);
        }
        other => panic!("unexpected {:?}", other),
    }
}

fn count_pdus(mut bytes: &[u8], max: u32) -> usize {
    let mut n = 0;
    while !bytes.is_empty() {
        read_pdu_from(&mut bytes, max, true).unwrap().unwrap();
        n += 1;
    }
    n
}

fn write_then_read(pcid: u8, max_pdu_length: u32, data: &[u8]) -> (Vec<u8>, usize) {
    let mut wire = Vec::new();
    {
        let mut writer = PDataWriter::new(&mut wire, pcid, max_pdu_length);
        writer.write_all(data).unwrap();
        writer.finish().unwrap();
    }
    let pdus = count_pdus(&wire, max_pdu_length);
    let mut source: VecDeque<u8> = wire.into_iter().collect();
    let mut reader = PDataReader::new(&mut source, max_pdu_length);
    let mut out = Vec::new();
    read_to_end(&mut reader, &mut out).unwrap();
    (out, pdus)
}

#[test]
fn what_is_written_is_read_back() {
    let data: Vec<u8> = (0..9000).map(|x: u32| (x * 7) as u8).collect();
    let (out, pdus) = write_then_read(32, MINIMUM_PDU_SIZE, &data);
    assert_eq!(out, data);
    assert_eq!(pdus, 3);
}

#[test]
fn payloads_of_whole_pdus_take_no_extra_pdu() {
    // 12 payload bytes per PDU, 36 bytes: exactly three PDUs
    let data: Vec<u8> = (0..36).collect();
    let (out, pdus) = write_then_read(1, 18, &data);
    assert_eq!(out, data);
    assert_eq!(pdus, 3);
    let (out, pdus) = write_then_read(1, 18, &data[..37 - 12]);
    assert_eq!(out, &data[..25]);
    assert_eq!(pdus, 3);
}

#[test]
fn an_empty_message_is_one_empty_last_pdu() {
    let (out, pdus) = write_then_read(1, 18, &[]);
    assert!(out.is_empty());
    assert_eq!(pdus, 1);
}

#[test]
fn write_all_goes_on_past_a_full_pdu() {
    let mut wire = Vec::new();
    {
        let mut writer = PDataWriter::new(&mut wire, 1, 18);
        writer.write_all(&[1; 12]).unwrap();
        writer.write_all(&[2; 5]).unwrap();
        writer.finish().unwrap();
    }
    assert_eq!(count_pdus(&wire, 18), 2);
    let mut source: VecDeque<u8> = wire.into_iter().collect();
    let mut reader = PDataReader::new(&mut source, 18);
    let mut out = Vec::new();
    read_to_end(&mut reader, &mut out).unwrap();
    assert_eq!(out, [vec![1; 12], vec![2; 5]].concat());
}

#[test]
fn an_empty_pdu_before_the_end_is_not_the_end() {
    let mut pdu_stream = stream_of(&[pdata(&[], 2, false), pdata(&[8, 9], 2, true)]);
    let mut reader = PDataReader::new(&mut pdu_stream, MINIMUM_PDU_SIZE);
    let mut chunk = [0u8; 4];
    assert_eq!(reader.read(&mut chunk).unwrap(), 0);
    assert!(!reader.at_end());
    assert_eq!(reader.read(&mut chunk).unwrap(), 2);
    assert_eq!(&chunk[..2], &[8, 9]);
    assert_eq!(reader.read(&mut chunk).unwrap(), 0);
    assert!(reader.at_end());
}

#[test]
fn each_value_on_another_context_is_counted() {
    let mut pdu_stream = stream_of(&[
        pdata(&[1], 5, false),
        pdata(&[2], 6, false),
        pdata(&[3], 5, false),
        pdata(&[4], 7, true),
    ]);
    let mut reader = PDataReader::new(&mut pdu_stream, MINIMUM_PDU_SIZE);
    let mut buf = Vec::new();
    read_to_end(&mut reader, &mut buf).unwrap();
    assert_eq!(buf, vec![1, 2, 3, 4]);
    assert_eq!(reader.presentation_context_mismatches(), 2);
}

#[test]
fn a_writer_takes_out_what_it_framed() {
    let mut writer = PDataWriter::new(Vec::new(), 4, 18);
    writer.write_all(&[1; 15]).unwrap();
    let first = writer.take_output();
    assert_eq!(first.len(), 24);
    assert!(writer.take_output().is_empty());
    writer.finish().unwrap();
    let last = writer.take_output();
    assert_eq!(last, vec![0x04, 0x00, 0, 0, 0, 9, 0, 0, 0, 5, 4, 0x02, 1, 1, 1]);
}
