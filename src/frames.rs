//! Recovering the frames of encapsulated JPEG pixel data from its fragments.
use vstd::prelude::*;
use vstd::slice::slice_to_vec;

verus! {

/// `jpeg_decoder::Error`, opaque: carried in `DecodeError` as the decoder
/// reported it.
#[verifier::external_type_specification]
#[verifier::external_body]
pub struct ExJpegError(jpeg_decoder::Error);

/// Whether a JPEG header can be read from the start of `b`.
pub uninterp spec fn jpeg_header_readable(b: Seq<u8>) -> bool;

/// Relies on `jpeg_decoder::Decoder::read_info`, fed the fragment alone:
/// it reads the image metadata only, and whether it succeeds depends on the
/// bytes alone.
#[verifier::external_body]
fn probe_jpeg_header(fragment: &[u8]) -> (r: Result<(), jpeg_decoder::Error>)
    ensures
        r is Ok <==> jpeg_header_readable(fragment@),
{
    jpeg_decoder::Decoder::new(std::io::Cursor::new(fragment)).read_info()
}

/// Relies on `jpeg_decoder::Decoder::decode`, fed one encoded frame. The
/// decoded samples may differ from machine to machine (the crate picks its
/// IDCT at run time), so nothing is promised of them.
#[verifier::external_body]
fn decode_jpeg(frame: &[u8]) -> (r: Result<Vec<u8>, jpeg_decoder::Error>) {
    jpeg_decoder::Decoder::new(std::io::Cursor::new(frame)).decode()
}

/// An image attribute that decoding needs.
#[derive(Debug, Clone, Copy, PartialEq, Eq, Structural)]
pub enum Attribute {
    Columns,
    Rows,
    SamplesPerPixel,
    BitsAllocated,
}

/// What decoding reads of a pixel data object: its image attributes, where
/// present, and the fragments of its encapsulated pixel data.
#[derive(Debug, Clone)]
pub struct PixelData {
    pub cols: Option<u16>,
    pub rows: Option<u16>,
    pub samples_per_pixel: Option<u16>,
    pub bits_allocated: Option<u16>,
    pub number_of_frames: Option<u32>,
    pub fragments: Option<Vec<Vec<u8>>>,
}

/// Why the frames could not be recovered.
#[derive(Debug)]
pub enum DecodeError {
    /// An attribute that decoding needs is missing.
    MissingAttribute(Attribute),
    /// Only 8 or 16 bits allocated per sample are supported.
    UnsupportedBitsAllocated(u16),
    /// The decoded image would not fit in memory.
    ImageTooLarge,
    /// A frame could not be decoded; this is the decoder's report on it.
    Decode(jpeg_decoder::Error),
    /// The decoded frames hold more samples than the image has room for.
    FrameOverflow,
    /// No fragments of raw pixel data are available.
    MissingPixelData,
    /// The first fragment does not start with an image header; this is
    /// the decoder's report on it.
    FirstFragmentHeader(jpeg_decoder::Error),
    /// The number of fragments that start with an image header differs
    /// from the number of frames.
    FrameCountMismatch,
}

/// Why fragments could not be grouped into frames.
#[derive(Debug, Clone, Copy, PartialEq, Eq, Structural)]
pub enum GroupError {
    /// The first fragment does not start a frame.
    NoFirstFrame,
    /// The number of fragments that start a frame differs from the number
    /// of frames.
    FrameCountMismatch,
}

pub open spec fn bytes_view(v: Seq<Vec<u8>>) -> Seq<Seq<u8>> {
    v.map_values(|x: Vec<u8>| x@)
}

/// Groups `frags` into frames: a fragment with `starts` set begins a new
/// frame, any other continues the frame before it. `None` where a fragment
/// comes before any frame has begun.
pub open spec fn groups(frags: Seq<Seq<u8>>, starts: Seq<bool>) -> Option<Seq<Seq<u8>>>
    decreases frags.len(),
{
    if frags.len() == 0 {
        Some(Seq::empty())
    } else {
        let n = frags.len() - 1;
        match groups(frags.drop_last(), starts) {
            None => None,
            Some(fr) => if starts[n] {
                Some(fr.push(frags[n]))
            } else if fr.len() > 0 {
                Some(fr.update(fr.len() - 1, fr.last() + frags[n]))
            } else {
                None
            },
        }
    }
}

/// Where the first fragment starts a frame, grouping cannot fail, and
/// yields a frame for each fragment that starts one.
proof fn lemma_groups_some(frags: Seq<Seq<u8>>, starts: Seq<bool>)
    requires
        frags.len() > 0,
        starts.len() >= frags.len(),
        starts[0],
    ensures
        groups(frags, starts) is Some,
        groups(frags, starts)->Some_0.len() > 0,
    decreases frags.len(),
{
    if frags.len() > 1 {
        lemma_groups_some(frags.drop_last(), starts);
    } else {
        assert(groups(frags.drop_last(), starts) == Some(Seq::<Seq<u8>>::empty()));
    }
    let fr = groups(frags.drop_last(), starts)->Some_0;
    assert(starts[frags.len() - 1] || fr.len() > 0);
}

/// Once a fragment comes before any frame has begun, grouping more
/// fragments does not help.
proof fn lemma_groups_none_extends(frags: Seq<Seq<u8>>, starts: Seq<bool>, j: int)
    requires
        0 <= j <= frags.len(),
        groups(frags.take(j), starts) is None,
    ensures
        groups(frags, starts) is None,
    decreases frags.len(),
{
    if j < frags.len() {
        assert(frags.drop_last().take(j) =~= frags.take(j));
        lemma_groups_none_extends(frags.drop_last(), starts, j);
    } else {
        assert(frags.take(j) =~= frags);
    }
}

/// Groups fragments into `nr_frames` frames, given for each fragment
/// whether it starts a frame.
pub fn group_fragments(nr_frames: usize, fragments: &Vec<Vec<u8>>, starts: &Vec<bool>) -> (r:
    Result<Vec<Vec<u8>>, GroupError>)
    requires
        starts@.len() == fragments@.len(),
    ensures
        match groups(bytes_view(fragments@), starts@) {
            None => r == Err::<Vec<Vec<u8>>, GroupError>(GroupError::NoFirstFrame),
            Some(fr) => if fr.len() == nr_frames {
                r is Ok && bytes_view(r->Ok_0@) == fr
            } else {
                r == Err::<Vec<Vec<u8>>, GroupError>(GroupError::FrameCountMismatch)
            },
        },
{
    let ghost fv = bytes_view(fragments@);
    let mut frames: Vec<Vec<u8>> = Vec::new();
    let mut i: usize = 0;
    assert(fv.take(0) =~= Seq::<Seq<u8>>::empty());
    while i < fragments.len()
        invariant
            i <= fragments@.len(),
            starts@.len() == fragments@.len(),
            fv == bytes_view(fragments@),
            groups(fv.take(i as int), starts@) == Some(bytes_view(frames@)),
        decreases fragments@.len() - i,
    {
        let ghost before = bytes_view(frames@);
        assert(fv.take(i + 1).drop_last() =~= fv.take(i as int));
        let fragment = slice_to_vec(fragments[i].as_slice());
        assert(fragment@ == fv[i as int]);
        if starts[i] {
            // this fragment begins a new frame
            frames.push(fragment);
            assert(bytes_view(frames@) =~= before.push(fv[i as int]));
        } else if frames.len() > 0 {
            // a continuation of the frame before it
            let mut last = match frames.pop() {
                Some(last) => last,
                None => Vec::new(),
            };
            assert(last@ == before.last());
            last.extend_from_slice(fragment.as_slice());
            frames.push(last);
            assert(last@ == before.last() + fv[i as int]);
            assert(bytes_view(frames@) =~= before.update(
                before.len() - 1,
                before.last() + fv[i as int],
            ));
        } else {
            proof {
                lemma_groups_none_extends(fv, starts@, i + 1);
            }
            return Err(GroupError::NoFirstFrame);
        }
        i = i + 1;
    }
    assert(fv.take(i as int) =~= fv);
    if frames.len() != nr_frames {
        return Err(GroupError::FrameCountMismatch);
    }
    Ok(frames)
}

/// The frames of `ds`, one after the other.
pub open spec fn concat(ds: Seq<Seq<u8>>) -> Seq<u8>
    decreases ds.len(),
{
    if ds.len() == 0 {
        Seq::empty()
    } else {
        concat(ds.drop_last()) + ds.last()
    }
}

/// `v` made `len` long, as `Vec::resize` with zeros does.
pub open spec fn resized(v: Seq<u8>, len: nat) -> Seq<u8> {
    if len <= v.len() {
        v.take(len as int)
    } else {
        v + Seq::new((len - v.len()) as nat, |i: int| 0u8)
    }
}

/// Bytes of the decoded image: all frames, every sample plane.
pub open spec fn image_len(p: PixelData) -> int {
    p.bits_allocated->Some_0 / 8 * p.cols->Some_0 * p.rows->Some_0 * p.samples_per_pixel->Some_0
        * match p.number_of_frames {
        Some(n) => n as int,
        None => 1,
    }
}

/// The attribute missing from `p` that is looked up first, if any.
pub open spec fn first_missing(p: PixelData) -> Option<Attribute> {
    if p.cols is None {
        Some(Attribute::Columns)
    } else if p.rows is None {
        Some(Attribute::Rows)
    } else if p.samples_per_pixel is None {
        Some(Attribute::SamplesPerPixel)
    } else if p.bits_allocated is None {
        Some(Attribute::BitsAllocated)
    } else {
        None
    }
}

/// `old_dst` resized to `total` bytes, then overwritten from its start with
/// the frames of `ds`.
pub open spec fn placed(old_dst: Seq<u8>, ds: Seq<Seq<u8>>, total: nat) -> Seq<u8> {
    concat(ds) + resized(old_dst, total).skip(concat(ds).len() as int)
}

/// The frames that the fragments of `src` group into.
pub open spec fn src_frames(src: PixelData) -> Seq<Seq<u8>> {
    let f = bytes_view(src.fragments->Some_0@);
    groups(f, f.map_values(|b: Seq<u8>| jpeg_header_readable(b)))->Some_0
}

pub open spec fn expected_frames(number_of_frames: Option<u32>) -> nat {
    match number_of_frames {
        Some(n) => n as nat,
        None => 1,
    }
}

proof fn lemma_concat_prefix(ds: Seq<Seq<u8>>, i: int)
    requires
        0 <= i < ds.len(),
    ensures
        concat(ds.take(i + 1)) == concat(ds.take(i)) + ds[i],
{
    assert(ds.take(i + 1).drop_last() =~= ds.take(i));
}

proof fn lemma_concat_grows(ds: Seq<Seq<u8>>, i: int)
    requires
        0 <= i <= ds.len(),
    ensures
        concat(ds.take(i)).len() <= concat(ds).len(),
    decreases ds.len(),
{
    if i < ds.len() {
        assert(ds.drop_last().take(i) =~= ds.take(i));
        lemma_concat_grows(ds.drop_last(), i);
    } else {
        assert(ds.take(i) =~= ds);
    }
}

/// Writes decoded frames into `dst`: resizes it to `total` bytes, padding
/// with zeros, then writes the frames one after the other from its start.
/// Fails, leaving `dst` as it was, where the frames take more than `total`
/// bytes.
pub fn place_frames(dst: &mut Vec<u8>, decoded: &Vec<Vec<u8>>, total: usize) -> (r: Result<
    (),
    DecodeError,
>)
    ensures
        r is Ok <==> concat(bytes_view(decoded@)).len() <= total,
        r is Ok ==> final(dst)@ == placed(old(dst)@, bytes_view(decoded@), total as nat),
        r is Err ==> r->Err_0 is FrameOverflow && final(dst)@ == old(dst)@,
{
    let ghost ds = bytes_view(decoded@);
    // the frames must fit before anything is written
    let mut size: usize = 0;
    let mut i: usize = 0;
    assert(ds.take(0) =~= Seq::<Seq<u8>>::empty());
    while i < decoded.len()
        invariant
            i <= decoded@.len(),
            ds == bytes_view(decoded@),
            size == concat(ds.take(i as int)).len(),
            size <= total,
        decreases decoded@.len() - i,
    {
        proof {
            lemma_concat_prefix(ds, i as int);
        }
        if decoded[i].len() > total - size {
            proof {
                lemma_concat_grows(ds, i + 1);
            }
            return Err(DecodeError::FrameOverflow);
        }
        size = size + decoded[i].len();
        i = i + 1;
    }
    assert(ds.take(i as int) =~= ds);
    // resize to the image length, padding with zeros
    if dst.len() > total {
        dst.truncate(total);
    }
    while dst.len() < total
        invariant
            dst@.len() <= total,
            dst@ == resized(old(dst)@, dst@.len() as nat),
            old(dst)@.len() <= total ==> dst@.len() >= old(dst)@.len(),
            old(dst)@.len() > total ==> dst@.len() == total,
        decreases total - dst@.len(),
    {
        dst.push(0);
        assert(dst@ =~= resized(old(dst)@, dst@.len() as nat));
    }
    assert(dst@ =~= resized(old(dst)@, total as nat));
    let ghost base = dst@;
    let mut offset: usize = 0;
    let mut i: usize = 0;
    while i < decoded.len()
        invariant
            i <= decoded@.len(),
            ds == bytes_view(decoded@),
            concat(ds).len() <= total,
            base == resized(old(dst)@, total as nat),
            base.len() == total,
            offset == concat(ds.take(i as int)).len(),
            dst@ == concat(ds.take(i as int)) + base.skip(offset as int),
        decreases decoded@.len() - i,
    {
        let frame = &decoded[i];
        proof {
            lemma_concat_prefix(ds, i as int);
            lemma_concat_grows(ds, i + 1);
        }
        let ghost before = dst@;
        let mut k: usize = 0;
        while k < frame.len()
            invariant
                k <= frame@.len(),
                offset + frame@.len() <= total,
                dst@.len() == total,
                before.len() == total,
                dst@ == before.take(offset as int) + frame@.take(k as int) + before.skip(
                    offset + k,
                ),
            decreases frame@.len() - k,
        {
            dst.set(offset + k, frame[k]);
            assert(dst@ =~= before.take(offset as int) + frame@.take(k + 1) + before.skip(
                offset + k + 1,
            ));
            k = k + 1;
        }
        proof {
            assert(before.take(offset as int) =~= concat(ds.take(i as int)));
            assert(frame@.take(k as int) =~= frame@);
            assert(before.skip(offset + k) =~= base.skip(offset + k));
            assert(dst@ =~= concat(ds.take(i + 1)) + base.skip(offset + k));
        }
        offset = offset + frame.len();
        i = i + 1;
    }
    assert(ds.take(i as int) =~= ds);
    Ok(())
}

/// Adapter for pixel data encoded as JPEG.
#[derive(Debug, Clone, Copy, PartialEq, Eq, Hash, PartialOrd, Ord)]
pub struct JPEGAdapter;

impl JPEGAdapter {
    /// Splits encapsulated pixel data into its encoded frames.
    ///
    /// An embedded JPEG image can span several fragments, and the
    /// fragments carry no frame numbers: a fragment whose start reads as a
    /// JPEG header begins a frame, any other continues the frame before
    /// it. `number_of_frames` defaults to 1.
    pub fn encoded_frames(
        &self,
        number_of_frames: Option<u32>,
        fragments: Option<&Vec<Vec<u8>>>,
    ) -> (r: Result<Vec<Vec<u8>>, DecodeError>)
        ensures
            fragments is None ==> r is Err && r->Err_0 is MissingPixelData,
            fragments is Some ==> {
                let f = bytes_view(fragments->Some_0@);
                let starts = f.map_values(|b: Seq<u8>| jpeg_header_readable(b));
                let nr = match number_of_frames {
                    Some(n) => n as nat,
                    None => 1,
                };
                if f.len() > 0 && !jpeg_header_readable(f[0]) {
                    r is Err && r->Err_0 is FirstFragmentHeader
                } else {
                    groups(f, starts) is Some && if groups(f, starts)->Some_0.len() == nr {
                        r is Ok && bytes_view(r->Ok_0@) == groups(f, starts)->Some_0
                    } else {
                        r is Err && r->Err_0 is FrameCountMismatch
                    }
                }
            },
    {
        let nr_frames = match number_of_frames {
            Some(n) => n as usize,
            None => 1,
        };
        let frags = match fragments {
            Some(f) => f,
            None => {
                return Err(DecodeError::MissingPixelData);
            },
        };
        let ghost f = bytes_view(frags@);
        let mut starts: Vec<bool> = Vec::new();
        let mut i: usize = 0;
        while i < frags.len()
            invariant
                i <= frags@.len(),
                f == bytes_view(frags@),
                fragments == Some(frags),
                nr_frames == match number_of_frames {
                    Some(n) => n as nat,
                    None => 1,
                },
                starts@.len() == i,
                forall|k: int| 0 <= k < i ==> starts@[k] == jpeg_header_readable(f[k]),
                i > 0 ==> jpeg_header_readable(f[0]),
            decreases frags@.len() - i,
        {
            match probe_jpeg_header(frags[i].as_slice()) {
                Ok(()) => {
                    starts.push(true);
                },
                Err(e) => {
                    if i == 0 {
                        // the first fragment must begin a frame
                        return Err(DecodeError::FirstFragmentHeader(e));
                    }
                    starts.push(false);
                },
            }
            i = i + 1;
        }
        let ghost sv = f.map_values(|b: Seq<u8>| jpeg_header_readable(b));
        assert(starts@ =~= sv);
        proof {
            if f.len() > 0 {
                lemma_groups_some(f, sv);
            }
        }
        match group_fragments(nr_frames, frags, &starts) {
            Ok(frames) => Ok(frames),
            Err(_) => Err(DecodeError::FrameCountMismatch),
        }
    }

    /// Decodes JPEG-encoded pixel data into `dst`.
    ///
    /// `dst` is resized to hold every sample of every frame; the decoded
    /// frames are written one after the other from its start. On any error
    /// `dst` is left as it was.
    pub fn decode(&self, src: &PixelData, dst: &mut Vec<u8>) -> (r: Result<(), DecodeError>)
        ensures
            r is Err ==> final(dst)@ == old(dst)@,
            first_missing(*src) is Some ==> r is Err && r->Err_0 == DecodeError::MissingAttribute(
                first_missing(*src)->Some_0,
            ),
            first_missing(*src) is None && src.bits_allocated->Some_0 != 8
                && src.bits_allocated->Some_0 != 16 ==> r is Err && r->Err_0
                == DecodeError::UnsupportedBitsAllocated(src.bits_allocated->Some_0),
            first_missing(*src) is None && (src.bits_allocated->Some_0 == 8
                || src.bits_allocated->Some_0 == 16) ==> {
                let f = bytes_view(src.fragments->Some_0@);
                if src.fragments is None {
                    r is Err && r->Err_0 is MissingPixelData
                } else if f.len() > 0 && !jpeg_header_readable(f[0]) {
                    r is Err && r->Err_0 is FirstFragmentHeader
                } else if src_frames(*src).len() != expected_frames(src.number_of_frames) {
                    r is Err && r->Err_0 is FrameCountMismatch
                } else if image_len(*src) > usize::MAX {
                    r is Err && r->Err_0 is ImageTooLarge
                } else {
                    &&& r is Ok || r->Err_0 is Decode || r->Err_0 is FrameOverflow
                    &&& r is Ok ==> exists|ds: Seq<Seq<u8>>|
                        {
                            &&& ds.len() == src_frames(*src).len()
                            &&& concat(ds).len() <= image_len(*src)
                            &&& final(dst)@ == placed(old(dst)@, ds, image_len(*src) as nat)
                        }
                    &&& r is Err && r->Err_0 is FrameOverflow ==> exists|ds: Seq<Seq<u8>>|
                        {
                            &&& ds.len() == src_frames(*src).len()
                            &&& concat(ds).len() > image_len(*src)
                        }
                }
            },
            r is Ok ==> final(dst)@.len() == image_len(*src),
    {
        let cols = match src.cols {
            Some(v) => v,
            None => {
                return Err(DecodeError::MissingAttribute(Attribute::Columns));
            },
        };
        let rows = match src.rows {
            Some(v) => v,
            None => {
                return Err(DecodeError::MissingAttribute(Attribute::Rows));
            },
        };
        let samples_per_pixel = match src.samples_per_pixel {
            Some(v) => v,
            None => {
                return Err(DecodeError::MissingAttribute(Attribute::SamplesPerPixel));
            },
        };
        let bits_allocated = match src.bits_allocated {
            Some(v) => v,
            None => {
                return Err(DecodeError::MissingAttribute(Attribute::BitsAllocated));
            },
        };
        if bits_allocated != 8 && bits_allocated != 16 {
            return Err(DecodeError::UnsupportedBitsAllocated(bits_allocated));
        }
        let nr_frames: u64 = match src.number_of_frames {
            Some(n) => n as u64,
            None => 1,
        };
        let bytes_per_sample = (bits_allocated / 8) as u64;
        let encoded_frames = match self.encoded_frames(
            src.number_of_frames,
            match &src.fragments {
                Some(f) => Some(f),
                None => None,
            },
        ) {
            Ok(frames) => frames,
            Err(e) => {
                return Err(e);
            },
        };
        // `stride` is the number of bytes of each sample plane
        assert(bytes_per_sample * cols as u64 <= 2 * 0xFFFF) by (nonlinear_arith)
            requires
                bytes_per_sample <= 2,
                cols <= 0xFFFF,
        ;
        assert(bytes_per_sample * cols as u64 * rows as u64 <= 2 * 0xFFFF * 0xFFFF) by (
        nonlinear_arith)
            requires
                bytes_per_sample <= 2,
                cols <= 0xFFFF,
                rows <= 0xFFFF,
        ;
        let stride: u64 = bytes_per_sample * cols as u64 * rows as u64;
        assert(samples_per_pixel as u64 * stride <= 0xFFFF * (2 * 0xFFFF * 0xFFFF)) by (
        nonlinear_arith)
            requires
                stride <= 2 * 0xFFFF * 0xFFFF,
                samples_per_pixel <= 0xFFFF,
        ;
        let size = (samples_per_pixel as u64 * stride).checked_mul(nr_frames);
        assert(samples_per_pixel as int * stride as int * nr_frames == image_len(*src)) by (
        nonlinear_arith)
            requires
                stride == bytes_per_sample * cols as int * rows as int,
                image_len(*src) == bits_allocated / 8 * cols as int * rows as int
                    * samples_per_pixel as int * nr_frames,
                bytes_per_sample == bits_allocated / 8,
        ;
        let total: usize = match size {
            Some(t) => {
                if t > usize::MAX as u64 {
                    return Err(DecodeError::ImageTooLarge);
                }
                t as usize
            },
            None => {
                return Err(DecodeError::ImageTooLarge);
            },
        };
        let ghost frames = bytes_view(encoded_frames@);
        let mut decoded: Vec<Vec<u8>> = Vec::new();
        let mut i: usize = 0;
        while i < encoded_frames.len()
            invariant
                i <= encoded_frames@.len(),
                decoded@.len() == i,
                dst@ == old(dst)@,
                first_missing(*src) is None,
                src.bits_allocated->Some_0 == 8 || src.bits_allocated->Some_0 == 16,
                src.fragments is Some,
                bytes_view(src.fragments->Some_0@).len() == 0 || jpeg_header_readable(
                    bytes_view(src.fragments->Some_0@)[0],
                ),
                frames == bytes_view(encoded_frames@),
                frames == src_frames(*src),
                frames.len() == expected_frames(src.number_of_frames),
                total == image_len(*src),
            decreases encoded_frames@.len() - i,
        {
            match decode_jpeg(encoded_frames[i].as_slice()) {
                Ok(d) => {
                    decoded.push(d);
                },
                Err(e) => {
                    return Err(DecodeError::Decode(e));
                },
            }
            i = i + 1;
        }
        let r = place_frames(dst, &decoded, total);
        proof {
            let ds = bytes_view(decoded@);
            assert(ds.len() == frames.len());
            if r is Ok {
                assert(placed(old(dst)@, ds, total as nat).len() == total);
            }
        }
        r
    }
}

} // verus!
