use dicom_pdata::frames::{
    group_fragments, place_frames, Attribute, DecodeError, GroupError, JPEGAdapter, PixelData,
};

/// Start of image, then a baseline frame header: 1x1, one component.
const JPEG_HEADER: [u8; 15] = [
    0xFF, 0xD8, 0xFF, 0xC0, 0x00, 0x0B, 0x08, 0x00, 0x01, 0x00, 0x01, 0x01, 0x01, 0x11, 0x00,
];

fn fragment(tag: u8, header: bool) -> Vec<u8> {
    let mut f = if header { JPEG_HEADER.to_vec() } else { Vec::new() };
    f.extend_from_slice(&[tag, tag, tag]);
    f
}

#[test]
fn fragments_are_grouped_at_frame_starts() {
    let fragments: Vec<Vec<u8>> = (0..6).map(|i| vec![i as u8; i + 1]).collect();
    let starts = vec![true, false, true, false, false, true];
    let frames = group_fragments(3, &fragments, &starts).unwrap();
    assert_eq!(frames.len(), 3);
    // fragment 1 starts no frame: it continues frame 0
    assert_eq!(frames[0], [vec![0; 1], vec![1; 2]].concat());
    assert_eq!(frames[1], [vec![2; 3], vec![3; 4], vec![4; 5]].concat());
    assert_eq!(frames[2], vec![5; 6]);
}

#[test]
fn consecutive_starts_make_single_fragment_frames() {
    let fragments = vec![vec![1], vec![2]];
    let frames = group_fragments(2, &fragments, &vec![true, true]).unwrap();
    assert_eq!(frames, vec![vec![1], vec![2]]);
}

#[test]
fn too_few_frame_starts_is_an_error() {
    let fragments: Vec<Vec<u8>> = (0..4).map(|i| vec![i as u8]).collect();
    let starts = vec![true, false, true, false];
    assert_eq!(
        group_fragments(3, &fragments, &starts),
        Err(GroupError::FrameCountMismatch)
    );
}

#[test]
fn too_many_frame_starts_is_an_error() {
    let fragments: Vec<Vec<u8>> = (0..3).map(|i| vec![i as u8]).collect();
    assert_eq!(
        group_fragments(2, &fragments, &vec![true, true, true]),
        Err(GroupError::FrameCountMismatch)
    );
}

#[test]
fn a_first_fragment_that_starts_no_frame_is_an_error() {
    let fragments = vec![vec![1], vec![2]];
    assert_eq!(
        group_fragments(1, &fragments, &vec![false, true]),
        Err(GroupError::NoFirstFrame)
    );
}

#[test]
fn jpeg_fragments_are_split_into_frames() {
    let fragments = vec![
        fragment(0, true),
        fragment(1, false),
        fragment(2, true),
        fragment(3, false),
        fragment(4, false),
        fragment(5, true),
    ];
    let frames = JPEGAdapter.encoded_frames(Some(3), Some(&fragments)).unwrap();
    assert_eq!(frames.len(), 3);
    assert_eq!(frames[0], [fragment(0, true), fragment(1, false)].concat());
    assert_eq!(
        frames[1],
        [fragment(2, true), fragment(3, false), fragment(4, false)].concat()
    );
    assert_eq!(frames[2], fragment(5, true));
}

#[test]
fn jpeg_frames_default_to_one() {
    let fragments = vec![fragment(0, true), fragment(1, false)];
    let frames = JPEGAdapter.encoded_frames(None, Some(&fragments)).unwrap();
    assert_eq!(frames, vec![[fragment(0, true), fragment(1, false)].concat()]);
}

#[test]
fn jpeg_with_two_headers_for_three_frames_fails() {
    let fragments = vec![fragment(0, true), fragment(1, true), fragment(2, false)];
    assert!(matches!(
        JPEGAdapter.encoded_frames(Some(3), Some(&fragments)),
        Err(DecodeError::FrameCountMismatch)
    ));
}

#[test]
fn jpeg_first_fragment_without_header_fails() {
    let fragments = vec![fragment(0, false), fragment(1, true)];
    assert!(matches!(
        JPEGAdapter.encoded_frames(Some(1), Some(&fragments)),
        Err(DecodeError::FirstFragmentHeader(_))
    ));
}

#[test]
fn jpeg_without_pixel_data_fails() {
    assert!(matches!(
        JPEGAdapter.encoded_frames(Some(1), None),
        Err(DecodeError::MissingPixelData)
    ));
}

/// A whole baseline JPEG image: 8x8 grayscale, every block flat at
/// mid-grey (quantisation by 1, one Huffman code each for a zero DC
/// difference and for end of block).
fn flat_grey_jpeg() -> Vec<u8> {
    let mut j = vec![0xFF, 0xD8];
    j.extend_from_slice(&[0xFF, 0xDB, 0x00, 0x43, 0x00]);
    j.extend_from_slice(&[1; 64]);
    j.extend_from_slice(&[
        0xFF, 0xC0, 0x00, 0x0B, 0x08, 0x00, 0x08, 0x00, 0x08, 0x01, 0x01, 0x11, 0x00,
    ]);
    for class in [0x00u8, 0x10] {
        j.extend_from_slice(&[0xFF, 0xC4, 0x00, 0x14, class, 0x01]);
        j.extend_from_slice(&[0; 15]);
        j.push(0x00);
    }
    j.extend_from_slice(&[0xFF, 0xDA, 0x00, 0x08, 0x01, 0x01, 0x00, 0x00, 0x3F, 0x00]);
    j.push(0x3F);
    j.extend_from_slice(&[0xFF, 0xD9]);
    j
}

fn pixel_data(frames: Option<u32>, fragments: Vec<Vec<u8>>) -> PixelData {
    PixelData {
        cols: Some(8),
        rows: Some(8),
        samples_per_pixel: Some(1),
        bits_allocated: Some(8),
        number_of_frames: frames,
        fragments: Some(fragments),
    }
}

#[test]
fn jpeg_frames_are_decoded_one_after_the_other() {
    let image = flat_grey_jpeg();
    let (head, tail) = image.split_at(90);
    let src = pixel_data(Some(2), vec![head.to_vec(), tail.to_vec(), image.clone()]);
    let mut dst = vec![7; 3];
    JPEGAdapter.decode(&src, &mut dst).unwrap();
    assert_eq!(dst, vec![128; 128]);
}

#[test]
fn decoded_frames_short_of_the_image_leave_the_rest_as_it_was() {
    let src = PixelData { rows: Some(9), ..pixel_data(None, vec![flat_grey_jpeg()]) };
    let mut dst = vec![7; 70];
    JPEGAdapter.decode(&src, &mut dst).unwrap();
    assert_eq!(dst.len(), 72);
    assert_eq!(&dst[..64], &[128; 64][..]);
    assert_eq!(&dst[64..], &[7, 7, 7, 7, 7, 7, 0, 0]);
}

#[test]
fn decoded_frames_beyond_the_image_are_an_error() {
    let src = PixelData { cols: Some(4), ..pixel_data(None, vec![flat_grey_jpeg()]) };
    let mut dst = Vec::new();
    assert!(matches!(
        JPEGAdapter.decode(&src, &mut dst),
        Err(DecodeError::FrameOverflow)
    ));
}

#[test]
fn an_undecodable_frame_is_an_error() {
    let src = pixel_data(None, vec![fragment(0, true)]);
    let mut dst = Vec::new();
    assert!(matches!(JPEGAdapter.decode(&src, &mut dst), Err(DecodeError::Decode(_))));
}

#[test]
fn decoding_needs_the_image_attributes() {
    let mut dst = Vec::new();
    let src = PixelData { cols: None, rows: None, ..pixel_data(None, vec![flat_grey_jpeg()]) };
    assert!(matches!(
        JPEGAdapter.decode(&src, &mut dst),
        Err(DecodeError::MissingAttribute(Attribute::Columns))
    ));
    let src = PixelData { bits_allocated: None, ..pixel_data(None, vec![flat_grey_jpeg()]) };
    assert!(matches!(
        JPEGAdapter.decode(&src, &mut dst),
        Err(DecodeError::MissingAttribute(Attribute::BitsAllocated))
    ));
}

#[test]
fn only_8_or_16_bits_allocated_are_decoded() {
    let mut dst = Vec::new();
    let src = PixelData { bits_allocated: Some(12), ..pixel_data(None, vec![flat_grey_jpeg()]) };
    assert!(matches!(
        JPEGAdapter.decode(&src, &mut dst),
        Err(DecodeError::UnsupportedBitsAllocated(12))
    ));
}

#[test]
fn frames_are_placed_from_the_start_and_padded() {
    let mut dst = vec![9; 3];
    place_frames(&mut dst, &vec![vec![1, 2], vec![3]], 5).unwrap();
    assert_eq!(dst, vec![1, 2, 3, 0, 0]);
    let mut dst = vec![7; 10];
    place_frames(&mut dst, &vec![vec![1]], 4).unwrap();
    assert_eq!(dst, vec![1, 7, 7, 7]);
}

#[test]
fn frames_beyond_the_image_are_not_placed() {
    let mut dst = vec![9; 3];
    assert!(matches!(
        place_frames(&mut dst, &vec![vec![1, 2], vec![3]], 2),
        Err(DecodeError::FrameOverflow)
    ));
    assert_eq!(dst, vec![9; 3]);
}

#[test]
fn a_failed_decode_leaves_dst_alone() {
    let mut dst = vec![5; 3];
    let src = PixelData { rows: None, ..pixel_data(None, vec![flat_grey_jpeg()]) };
    assert!(matches!(
        JPEGAdapter.decode(&src, &mut dst),
        Err(DecodeError::MissingAttribute(Attribute::Rows))
    ));
    assert_eq!(dst, vec![5; 3]);
    let src = PixelData { cols: Some(4), ..pixel_data(None, vec![flat_grey_jpeg()]) };
    assert!(JPEGAdapter.decode(&src, &mut dst).is_err());
    assert_eq!(dst, vec![5; 3]);
    let src = PixelData { fragments: None, ..pixel_data(None, vec![]) };
    assert!(matches!(
        JPEGAdapter.decode(&src, &mut dst),
        Err(DecodeError::MissingPixelData)
    ));
    assert_eq!(dst, vec![5; 3]);
}

#[test]
fn an_image_too_large_for_memory_is_an_error() {
    let n: u32 = 1 << 16;
    let fragments: Vec<Vec<u8>> = (0..n).map(|_| JPEG_HEADER.to_vec()).collect();
    let src = PixelData {
        cols: Some(u16::MAX),
        rows: Some(u16::MAX),
        samples_per_pixel: Some(u16::MAX),
        bits_allocated: Some(16),
        number_of_frames: Some(n),
        fragments: Some(fragments),
    };
    let mut dst = vec![1];
    assert!(matches!(JPEGAdapter.decode(&src, &mut dst), Err(DecodeError::ImageTooLarge)));
    assert_eq!(dst, vec![1]);
}
