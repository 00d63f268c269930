//! JPEG encoding and decoding of display buffers.

use rayon::ThreadPool;
use vstd::prelude::*;

use crate::jpeg_restart::decode::{
    decodes_rowwise, decodes_to, frame_of, is_damaged, law_first_phase_gives_rows_of_the_picture,
    lemma_damaged_first_phase, may_begin, try_decode, BandDecode,
};
use crate::jpeg_restart::{
    be16, frame_at, header_at, layout_of, lemma_marker_at, marker_at, segment_len, FrameModel,
    LayoutModel,
};
use crate::text::{decimal, push_decimal};
use crate::types::PixelBuf;

pub mod limits;

verus! {

// ---------------------------------------------------------------------------
// Decoding
// ---------------------------------------------------------------------------

/// What the JPEG decoder returned: RGBA pixels and the dimensions it reports.
pub struct DecodedRgba {
    pub pixels: Vec<u8>,
    pub dimensions: Option<(usize, usize)>,
}

/// The outcome of a decode: pixels with the reported dimensions, or an error
/// text.
pub type DecodeModel = Result<(Seq<u8>, Option<(usize, usize)>), Seq<char>>;

/// What a decode returned, over sequences.
pub open spec fn decode_model(decoded: Result<DecodedRgba, String>) -> DecodeModel {
    match decoded {
        Ok(rgba) => Ok((rgba.pixels@, rgba.dimensions)),
        Err(error) => Err(error@),
    }
}

/// Whether decoding a byte stream can have an outcome. Which of several
/// outcomes comes may depend on the vector instructions of the machine.
pub uninterp spec fn may_decode(jpeg: Seq<u8>, outcome: DecodeModel) -> bool;

/// Whether a stream begins with the marker of a JPEG.
pub open spec fn has_jpeg_marker(stream: Seq<u8>) -> bool {
    stream.len() >= 2 && stream[0] == 0xFF && stream[1] == 0xD8
}

/// Whether a stream begins as a baseline JPEG of the given dimensions at full
/// chroma resolution: a JFIF segment, two quantization tables, and the header of
/// a frame with three components, each with sampling factors of one.
pub open spec fn has_full_chroma_header(stream: Seq<u8>, width: int, height: int) -> bool {
    &&& stream.len() >= 177
    &&& stream[0] == 0xFF && stream[1] == 0xD8
    &&& stream[2] == 0xFF && stream[3] == 0xE0 && be16(stream, 4) == 16
    &&& stream[20] == 0xFF && stream[21] == 0xDB && be16(stream, 22) == 67
    &&& stream[89] == 0xFF && stream[90] == 0xDB && be16(stream, 91) == 67
    &&& stream[158] == 0xFF && stream[159] == 0xC0 && be16(stream, 160) == 17
    &&& be16(stream, 163) == height && be16(stream, 165) == width
    &&& stream[167] == 3
    &&& stream[169] == 0x11 && stream[172] == 0x11 && stream[175] == 0x11
}

/// Wraps `zune_jpeg::JpegDecoder::decode` with RGBA output. The outcome is one
/// that the bytes allow. A successful decode reports dimensions, each of at most
/// 16 bits, and fills exactly four bytes per pixel. A stream without the marker of
/// a JPEG is refused, and one that begins as a baseline JPEG at full chroma
/// resolution gives the dimensions of its frame header if it gives any:
/// `decode_headers_internal` reads the marker first and stops at the scan,
/// `parse_start_of_frame` sets the dimensions and refuses a second frame header,
/// and `output_buffer_size` counts the bytes. Which pixels come is left unsaid: the
/// decoder picks its kernels by the machine it runs on. So is whether a stream that
/// is not a valid JPEG gives an error or a picture with gaps; a panic on such a
/// stream its documentation counts as a defect of the decoder.
#[verifier::external_body]
pub(crate) fn decode_rgba(bytes: &[u8]) -> (decoded: Result<DecodedRgba, String>)
    ensures
        may_decode(bytes@, decode_model(decoded)),
        decoded matches Ok(rgba) ==> (rgba.dimensions matches Some((width, height)) && width
            <= 0xFFFF && height <= 0xFFFF && rgba.pixels@.len() == width * height * 4),
        !has_jpeg_marker(bytes@) ==> decoded is Err,
        has_full_chroma_header(bytes@, be16(bytes@, 165), be16(bytes@, 163)) ==> (
        decoded matches Ok(rgba) ==> rgba.dimensions == Some(
            (be16(bytes@, 165) as usize, be16(bytes@, 163) as usize),
        )),
{
    let options = zune_jpeg::zune_core::options::DecoderOptions::default()
        .jpeg_set_out_colorspace(zune_jpeg::zune_core::colorspace::ColorSpace::RGBA);
    let cursor = std::io::Cursor::new(bytes);
    let mut decoder = zune_jpeg::JpegDecoder::new_with_options(cursor, options);
    match decoder.decode() {
        Ok(pixels) => Ok(DecodedRgba { pixels, dimensions: decoder.dimensions() }),
        Err(error) => Err(format!("{error}")),
    }
}

/// The buffer, or the error, that the outcome of a whole-stream decode stands
/// for.
pub open spec fn serial_outcome(decoded: Result<DecodedRgba, String>, buf: Result<PixelBuf, String>)
    -> bool {
    match decoded {
        Err(error) => buf matches Err(text) && text@ == error@,
        Ok(rgba) => match rgba.dimensions {
            None => buf matches Err(text) && text@ == "no dimensions"@,
            Some((width, height)) => buf matches Ok(made) && made.wf() && made@ == (
            crate::types::PixelModel {
                width: (width as u32) as nat,
                height: (height as u32) as nat,
                rgba: rgba.pixels@,
                opaque: crate::types::packed_opaque(
                    (width as u32) as nat,
                    (height as u32) as nat,
                    rgba.pixels@,
                ),
            }),
        },
    }
}

/// Turns what the decoder returned into a buffer.
pub fn buffer_from_decoded(decoded: Result<DecodedRgba, String>) -> (buf: Result<PixelBuf, String>)
    ensures
        serial_outcome(decoded, buf),
{
    match decoded {
        Ok(rgba) => match rgba.dimensions {
            Some((width, height)) => Ok(
                PixelBuf::new_scanned(
                    #[verifier::truncate] (width as u32),
                    #[verifier::truncate] (height as u32),
                    rgba.pixels,
                ),
            ),
            None => Err(String::from_str("no dimensions")),
        },
        Err(error) => Err(error),
    }
}

/// Whether a serial decode of a stream can end in `buf`.
pub open spec fn may_decode_serially(bytes: Seq<u8>, buf: Result<PixelBuf, String>) -> bool {
    exists|decoded: Result<DecodedRgba, String>|
        may_decode(bytes, decode_model(decoded)) && #[trigger] serial_outcome(decoded, buf)
}

/// Whether a decode on a pool of some size can end in `buf`: in chunks where
/// the stream can be split, else serially.
pub open spec fn may_decode_jpeg(bytes: Seq<u8>, buf: Result<PixelBuf, String>) -> bool {
    exists|threads: usize, begun: BandDecode| #[trigger]
        may_begin(bytes, None, threads, begun) && match begun {
            BandDecode::Done(made) => buf == Ok::<PixelBuf, String>(made),
            _ => may_decode_serially(bytes, buf),
        }
}

/// Decodes a whole JPEG stream serially.
fn decode_jpeg_serial(bytes: &[u8]) -> (buf: Result<PixelBuf, String>)
    ensures
        may_decode_serially(bytes@, buf),
        buf matches Ok(made) ==> made.wf() && crate::types::packed(
            made@.width,
            made@.height,
            made@.rgba,
        ),
        !has_jpeg_marker(bytes@) ==> buf is Err,
        has_full_chroma_header(bytes@, be16(bytes@, 165), be16(bytes@, 163)) ==> (
        buf matches Ok(made) ==> made@.width == be16(bytes@, 165) && made@.height == be16(
            bytes@,
            163,
        )),
{
    let decoded = decode_rgba(bytes);
    let ghost model = decoded;
    let buf = buffer_from_decoded(decoded);
    assert(serial_outcome(model, buf));
    proof {
        if let Ok(ref made) = buf {
            let rgba = model->Ok_0;
            let (width, height) = rgba.dimensions->0;
            assert(width as u32 == width);
            assert(height as u32 == height);
        }
    }
    buf
}

proof fn lemma_frame_stays(
    bytes: Seq<u8>,
    at: int,
    frame: FrameModel,
    interval: Option<int>,
)
    ensures
        header_at(bytes, at, Some(frame), interval) matches Some(header) ==> header.frame == Some(
            frame,
        ),
    decreases bytes.len() - at,
{
    if 0 <= at < bytes.len() && bytes[at] == 0xFF {
        lemma_marker_at(bytes, at + 1);
        if let Some(found) = marker_at(bytes, at + 1) {
            let next = found + 1;
            lemma_frame_stays(bytes, next, frame, interval);
            if let Some(len) = segment_len(bytes, next) {
                lemma_frame_stays(bytes, next + len, frame, interval);
                lemma_frame_stays(bytes, next + len, frame, Some(be16(bytes, next + 2)));
            }
        }
    }
}

/// A splittable stream has the dimensions of its frame header.
proof fn lemma_layout_has_header_size(stream: Seq<u8>, layout: LayoutModel)
    requires
        has_full_chroma_header(stream, be16(stream, 165), be16(stream, 163)),
        layout_of(stream) == Some(layout),
    ensures
        layout.width == be16(stream, 165),
        layout.height == be16(stream, 163),
{
    assert(marker_at(stream, 3) == Some(3int));
    assert(header_at(stream, 2, None, None) == header_at(stream, 20, None, None));
    assert(marker_at(stream, 21) == Some(21int));
    assert(header_at(stream, 20, None, None) == header_at(stream, 89, None, None));
    assert(marker_at(stream, 90) == Some(90int));
    assert(header_at(stream, 89, None, None) == header_at(stream, 158, None, None));
    assert(marker_at(stream, 159) == Some(159int));
    let frame = frame_at(stream, 160, 17)->Some_0;
    assert(header_at(stream, 158, None, None) == header_at(stream, 177, Some(frame), None));
    lemma_frame_stays(stream, 177, frame, None);
}

/// Decodes JPEG bytes into a tightly packed RGBA8 buffer.
///
/// Cache objects carry row-aligned restart markers, so large streams normally
/// decode on multiple workers; every other stream, and any stream the splitter
/// refuses, uses the whole-buffer serial decoder.
///
/// # Errors
///
/// Returns a human-readable string for malformed or unsupported JPEG data, or
/// when the decoder does not report dimensions.
pub fn decode_jpeg(bytes: &[u8]) -> (buf: Result<PixelBuf, String>)
    ensures
        may_decode_jpeg(bytes@, buf),
        buf matches Ok(made) ==> made.wf() && crate::types::packed(
            made@.width,
            made@.height,
            made@.rgba,
        ),
        !has_jpeg_marker(bytes@) ==> buf is Err,
        has_full_chroma_header(bytes@, be16(bytes@, 165), be16(bytes@, 163)) ==> (
        buf matches Ok(made) ==> made@.width == be16(bytes@, 165) && made@.height == be16(
            bytes@,
            163,
        )),
{
    match try_decode(bytes) {
        Some(buf) => {
            proof {
                let layout = layout_of(bytes@)->Some_0;
                if has_full_chroma_header(bytes@, be16(bytes@, 165), be16(bytes@, 163)) {
                    lemma_layout_has_header_size(bytes@, layout);
                }
            }
            Ok(buf)
        },
        None => decode_jpeg_serial(bytes),
    }
}

/// Runs the whole-buffer serial JPEG decode as a benchmark reference.
pub fn benchmark_decode_jpeg_serial(bytes: &[u8]) -> (buf: Result<PixelBuf, String>)
    ensures
        may_decode_serially(bytes@, buf),
        buf matches Ok(made) ==> made.wf() && crate::types::packed(
            made@.width,
            made@.height,
            made@.rgba,
        ),
        !has_jpeg_marker(bytes@) ==> buf is Err,
        has_full_chroma_header(bytes@, be16(bytes@, 165), be16(bytes@, 163)) ==> (
        buf matches Ok(made) ==> made@.width == be16(bytes@, 165) && made@.height == be16(
            bytes@,
            163,
        )),
{
    decode_jpeg_serial(bytes)
}

// ---------------------------------------------------------------------------
// Encoding
// ---------------------------------------------------------------------------

/// The JPEG stream of RGBA pixels at full chroma resolution, with a restart
/// marker every `interval` MCUs; an interval of zero means none.
pub uninterp spec fn encoded_rgba(
    rgba: Seq<u8>,
    width: int,
    height: int,
    quality: int,
    interval: int,
) -> Seq<u8>;

/// The quality that the encoder works with: the nearest one in its range.
pub open spec fn encoder_quality(quality: u8) -> int {
    if quality < 1 {
        1
    } else if quality > 100 {
        100
    } else {
        quality as int
    }
}

/// Whether the encoder takes an image: nonzero dimensions of at most 16 bits, with
/// at least four bytes per pixel.
pub open spec fn is_encodable(rgba: Seq<u8>, width: nat, height: nat) -> bool {
    0 < width <= 0xFFFF && 0 < height <= 0xFFFF && width * height * 4 <= rgba.len()
}

/// Wraps `jpeg_rusturbo::JpegEncoder::encode_rgba` in 4:4:4 mode, writing to a
/// vector. The stream depends on the pixels, dimensions, quality and restart
/// interval alone: the encoder documents bit-identical output across thread
/// counts and instruction sets. A quality out of range counts as the nearest one
/// in it. Zero threads stand for the current pool, one for a serial encode, and
/// more for a pool of its own. Nonzero dimensions of at most 16 bits with four
/// bytes per pixel are always encoded, unless a pool of its own cannot be had;
/// nothing else ever is. A stream begins with the segments that the encoder
/// writes first: JFIF, both quantization tables, and the frame header with the
/// dimensions and unit sampling factors. `encode_inner` makes all refusals before
/// it writes; `dispatch_scan` quantizes rows on a pool or serially, and emits them
/// in order on the calling thread.
#[verifier::external_body]
pub(crate) fn rusturbo_encode(
    rgba: &[u8],
    width: u32,
    height: u32,
    quality: u8,
    interval: u16,
    threads: u32,
) -> (encoded: Result<Vec<u8>, String>)
    ensures
        encoded matches Ok(bytes) ==> bytes@ == encoded_rgba(
            rgba@,
            width as int,
            height as int,
            encoder_quality(quality),
            interval as int,
        ) && has_full_chroma_header(bytes@, width as int, height as int),
        threads <= 1 && is_encodable(rgba@, width as nat, height as nat) ==> encoded is Ok,
        !is_encodable(rgba@, width as nat, height as nat) ==> encoded is Err,
{
    let mut output = Vec::new();
    let mut encoder = jpeg_rusturbo::JpegEncoder::new_with_quality(&mut output, quality);
    encoder.set_subsampling(jpeg_rusturbo::ChromaSubsampling::Yuv444);
    encoder.set_threads(threads);
    encoder.set_restart_interval(interval);
    let result = encoder.encode_rgba(rgba, width, height);
    drop(encoder);
    match result {
        Ok(()) => Ok(output),
        Err(error) => Err(format!("{error}")),
    }
}

/// Why a buffer cannot be encoded.
pub enum JpegInputError {
    /// The quality is outside the range of the encoder.
    Quality,
    /// The width does not fit the format.
    Width,
    /// The height does not fit the format.
    Height,
    /// A dimension is zero.
    Empty,
    /// The storage cannot be addressed.
    Overflow,
    /// The storage does not match the dimensions.
    Storage,
}

/// Whether a buffer can be encoded, and if not, the first reason.
pub open spec fn jpeg_input(buf: crate::types::PixelModel, quality: u8) -> Option<JpegInputError> {
    if quality < 1 || quality > 100 {
        Some(JpegInputError::Quality)
    } else if buf.width > 0xFFFF {
        Some(JpegInputError::Width)
    } else if buf.height > 0xFFFF {
        Some(JpegInputError::Height)
    } else if buf.width == 0 || buf.height == 0 {
        Some(JpegInputError::Empty)
    } else if buf.width * buf.height * 4 > usize::MAX {
        Some(JpegInputError::Overflow)
    } else if buf.rgba.len() != buf.width * buf.height * 4 {
        Some(JpegInputError::Storage)
    } else {
        None
    }
}

/// The text that explains why a buffer cannot be encoded.
pub open spec fn jpeg_input_chars(
    buf: crate::types::PixelModel,
    quality: u8,
    reason: JpegInputError,
) -> Seq<char> {
    match reason {
        JpegInputError::Quality => "JPEG quality "@ + decimal(quality as nat)
            + " is outside 1..=100"@,
        JpegInputError::Width => "JPEG width "@ + decimal(buf.width) + " exceeds 65535"@,
        JpegInputError::Height => "JPEG height "@ + decimal(buf.height) + " exceeds 65535"@,
        JpegInputError::Empty => "JPEG dimensions must be non-zero"@,
        JpegInputError::Overflow => "JPEG buffer byte count overflowed"@,
        JpegInputError::Storage => "RGBA storage has "@ + decimal(buf.rgba.len())
            + " bytes; expected "@ + decimal((buf.width * buf.height * 4) as nat) + " for "@
            + decimal(buf.width) + "x"@ + decimal(buf.height),
    }
}

fn number_text(before: &str, number: u64, after: &str) -> (text: String)
    ensures
        text@ == before@ + decimal(number as nat) + after@,
{
    let mut text = String::from_str(before);
    push_decimal(&mut text, number);
    text.append(after);
    text
}

fn storage_text(stored: usize, expected: u64, width: u32, height: u32) -> (text: String)
    ensures
        text@ == "RGBA storage has "@ + decimal(stored as nat) + " bytes; expected "@ + decimal(
            expected as nat,
        ) + " for "@ + decimal(width as nat) + "x"@ + decimal(height as nat),
{
    let mut text = String::from_str("RGBA storage has ");
    push_decimal(&mut text, stored as u64);
    text.append(" bytes; expected ");
    push_decimal(&mut text, expected);
    text.append(" for ");
    push_decimal(&mut text, width as u64);
    text.append("x");
    push_decimal(&mut text, height as u64);
    text
}

/// Checks that a buffer can be encoded. Returns its width, height and bytes per
/// row.
pub fn validate_jpeg_input(buf: &PixelBuf, quality: u8) -> (checked: Result<
    (usize, usize, usize),
    String,
>)
    ensures
        match checked {
            Ok((width, height, pitch)) => jpeg_input(buf@, quality) is None && width == buf@.width
                && height == buf@.height && pitch == buf@.width * 4,
            Err(text) => jpeg_input(buf@, quality) matches Some(reason) && text@
                == jpeg_input_chars(buf@, quality, reason),
        },
{
    broadcast use PixelBuf::view_fields;

    if quality < 1 || quality > 100 {
        return Err(number_text("JPEG quality ", quality as u64, " is outside 1..=100"));
    }
    if buf.width > 65535 {
        return Err(number_text("JPEG width ", buf.width as u64, " exceeds 65535"));
    }
    if buf.height > 65535 {
        return Err(number_text("JPEG height ", buf.height as u64, " exceeds 65535"));
    }
    if buf.width == 0 || buf.height == 0 {
        return Err(String::from_str("JPEG dimensions must be non-zero"));
    }
    let stored: usize = buf.byte_len();
    assert(buf.width * buf.height <= 0xFFFF * 0xFFFF) by (nonlinear_arith)
        requires
            buf.width <= 0xFFFF,
            buf.height <= 0xFFFF,
    ;
    let expected: u64 = buf.width as u64 * buf.height as u64 * 4;
    if expected > usize::MAX as u64 {
        return Err(String::from_str("JPEG buffer byte count overflowed"));
    }
    if stored as u64 != expected {
        return Err(storage_text(stored, expected, buf.width, buf.height));
    }
    Ok((buf.width as usize, buf.height as usize, buf.width as usize * 4))
}

/// MCUs in one 4:4:4 row of a width.
pub open spec fn row_interval(width: int) -> int {
    crate::jpeg_restart::ceil_div(width, 8)
}

/// The outcome of encoding a buffer: the stream, at full chroma resolution, with
/// a restart marker every `interval` MCUs, or the reason why the buffer cannot be
/// encoded.
pub open spec fn encode_outcome(
    buf: crate::types::PixelModel,
    quality: u8,
    interval: int,
    encoded: Result<Vec<u8>, String>,
) -> bool {
    match jpeg_input(buf, quality) {
        Some(reason) => encoded matches Err(text) && text@ == jpeg_input_chars(
            buf,
            quality,
            reason,
        ),
        None => encoded matches Ok(bytes) && bytes@ == encoded_rgba(
            buf.rgba,
            buf.width as int,
            buf.height as int,
            quality as int,
            interval,
        ) && has_full_chroma_header(bytes@, buf.width as int, buf.height as int),
    }
}

/// Encodes on the thread pool that is current, without looking at the input.
/// `encoder_threads` is one for a serial encode, zero for the whole pool, and more
/// for a pool of its own, which the machine may not have to give.
///
/// One restart interval per 4:4:4 MCU row (8 pixel rows) resets the DC
/// predictors at every row boundary, which lets [`decode_jpeg`] split the scan.
/// The output stays a standard baseline JPEG; decoders without that split read
/// it unchanged.
pub fn encode_jpeg_on_current_pool(buf: &PixelBuf, quality: u8, encoder_threads: u32) -> (encoded:
    Result<Vec<u8>, String>)
    ensures
        encoded matches Ok(bytes) ==> bytes@ == encoded_rgba(
            buf@.rgba,
            buf@.width as int,
            buf@.height as int,
            encoder_quality(quality),
            row_interval(buf@.width as int),
        ) && has_full_chroma_header(bytes@, buf@.width as int, buf@.height as int),
        encoder_threads <= 1 && is_encodable(buf@.rgba, buf@.width, buf@.height) ==> encoded is Ok,
        !is_encodable(buf@.rgba, buf@.width, buf@.height) ==> encoded is Err,
{
    broadcast use PixelBuf::view_fields;

    let blocks: u32 = buf.width / 8 + if buf.width % 8 == 0 {
        0
    } else {
        1
    };
    let interval: u16 = (blocks % 0x1_0000) as u16;
    proof {
        if buf.width <= 0xFFFF {
            assert(interval == row_interval(buf.width as int));
        }
    }
    rusturbo_encode(buf.rgba(), buf.width, buf.height, quality, interval, encoder_threads)
}

/// Encodes a tightly packed RGBA8 buffer as a JPEG, on the thread pool that is
/// current; [`encode_jpeg_with_pool`] keeps cache persistence off it.
///
/// Chroma is always encoded at full 4:4:4 resolution and the output discards
/// alpha.
///
/// # Errors
///
/// Returns a string error if quality is outside 1–100, either dimension is zero
/// or exceeds the JPEG format limit, or the RGBA storage is inconsistent with
/// the dimensions.
pub fn encode_jpeg(buf: &PixelBuf, quality: u8) -> (encoded: Result<Vec<u8>, String>)
    ensures
        encode_outcome(buf@, quality, row_interval(buf@.width as int), encoded),
{
    match validate_jpeg_input(buf, quality) {
        Err(error) => Err(error),
        Ok(_) => encode_jpeg_on_current_pool(buf, quality, 0),
    }
}

/// Wraps `rayon::ThreadPool::install`: the result is what
/// [`encode_jpeg_on_current_pool`] returned on a worker of the pool.
#[verifier::external_body]
fn install_encode(pool: &ThreadPool, buf: &PixelBuf, quality: u8, encoder_threads: u32) -> (encoded:
    Result<Vec<u8>, String>)
    ensures
        call_ensures(encode_jpeg_on_current_pool, (buf, quality, encoder_threads), encoded),
{
    pool.install(|| encode_jpeg_on_current_pool(buf, quality, encoder_threads))
}

/// Encodes a tightly packed RGBA8 buffer as a JPEG on a dedicated pool, so that
/// cache persistence cannot occupy the pool that develops RAW files. Input that
/// cannot be encoded never reaches the pool.
pub fn encode_jpeg_with_pool(pool: &ThreadPool, buf: &PixelBuf, quality: u8) -> (encoded: Result<
    Vec<u8>,
    String,
>)
    ensures
        encode_outcome(buf@, quality, row_interval(buf@.width as int), encoded),
        jpeg_input(buf@, quality) is None ==> call_ensures(
            encode_jpeg_on_current_pool,
            (buf, quality, 0),
            encoded,
        ),
{
    match validate_jpeg_input(buf, quality) {
        Err(error) => Err(error),
        Ok(_) => install_encode(pool, buf, quality, 0),
    }
}

/// Encodes a cache object: serially on the processing pool where there is one,
/// else on the whole JPEG pool.
pub fn encode_cache_jpeg(
    processing_pool: Option<&ThreadPool>,
    jpeg_pool: &ThreadPool,
    buf: &PixelBuf,
    quality: u8,
) -> (encoded: Result<Vec<u8>, String>)
    ensures
        encode_outcome(buf@, quality, row_interval(buf@.width as int), encoded),
        jpeg_input(buf@, quality) is None ==> call_ensures(
            encode_jpeg_on_current_pool,
            (
                buf,
                quality,
                if processing_pool is Some {
                    1u32
                } else {
                    0u32
                },
            ),
            encoded,
        ),
{
    match processing_pool {
        Some(pool) => match validate_jpeg_input(buf, quality) {
            Err(error) => Err(error),
            Ok(_) => install_encode(pool, buf, quality, 1),
        },
        None => encode_jpeg_with_pool(jpeg_pool, buf, quality),
    }
}

/// Encodes without restart markers as a size and speed benchmark reference.
pub fn benchmark_encode_jpeg_plain(buf: &PixelBuf, quality: u8) -> (encoded: Result<
    Vec<u8>,
    String,
>)
    ensures
        encode_outcome(buf@, quality, 0, encoded),
{
    broadcast use PixelBuf::view_fields;

    match validate_jpeg_input(buf, quality) {
        Err(error) => Err(error),
        Ok(_) => rusturbo_encode(buf.rgba(), buf.width, buf.height, quality, 0, 0),
    }
}

/// Every buffer that can be encoded is encoded, and every other one is refused:
/// the outcome of encoding depends on the buffer and the quality alone.
pub proof fn law_encoding_succeeds_exactly_on_valid_input(
    buf: crate::types::PixelModel,
    quality: u8,
    interval: int,
    encoded: Result<Vec<u8>, String>,
)
    requires
        buf.rgba.len() <= usize::MAX,
        encode_outcome(buf, quality, interval, encoded),
    ensures
        encoded is Ok <==> 1 <= quality <= 100 && 0 < buf.width <= 0xFFFF && 0 < buf.height
            <= 0xFFFF && crate::types::packed(buf.width, buf.height, buf.rgba),
{
}

/// Equal buffers encode equally at one quality, whichever pool does the work: to
/// the same bytes, or with the same refusal.
pub proof fn law_equal_buffers_encode_equally(
    buf: crate::types::PixelModel,
    quality: u8,
    interval: int,
    first: Result<Vec<u8>, String>,
    second: Result<Vec<u8>, String>,
)
    requires
        encode_outcome(buf, quality, interval, first),
        encode_outcome(buf, quality, interval, second),
    ensures
        match (first, second) {
            (Ok(a), Ok(b)) => a@ == b@,
            (Err(a), Err(b)) => a@ == b@,
            _ => false,
        },
{
}

/// Where the decoder treats the rows of a splittable stream independently, a
/// decode on a pool of any size gives the picture that a serial decode gives.
pub proof fn law_decode_equals_serial_decode(
    bytes: Seq<u8>,
    layout: LayoutModel,
    rgba: Seq<u8>,
    buf: Result<PixelBuf, String>,
    serial: Result<PixelBuf, String>,
)
    requires
        layout_of(bytes) == Some(layout),
        decodes_rowwise(bytes, layout, rgba),
        may_decode_jpeg(bytes, buf),
        may_decode_serially(bytes, serial),
    ensures
        serial matches Ok(made) && made@ == frame_of(layout, rgba),
        buf matches Ok(made) && made@ == frame_of(layout, rgba),
{
    lemma_serial_decode_gives_frame(bytes, layout, rgba, serial);
    lemma_any_decode_gives_frame(bytes, layout, rgba, buf);
}

proof fn lemma_any_decode_gives_frame(
    bytes: Seq<u8>,
    layout: LayoutModel,
    rgba: Seq<u8>,
    buf: Result<PixelBuf, String>,
)
    requires
        layout_of(bytes) == Some(layout),
        decodes_rowwise(bytes, layout, rgba),
        may_decode_jpeg(bytes, buf),
    ensures
        buf matches Ok(made) && made@ == frame_of(layout, rgba),
{
    let (threads, begun) = choose|threads: usize, begun: BandDecode| #[trigger]
        may_begin(bytes, None, threads, begun) && match begun {
            BandDecode::Done(made) => buf == Ok::<PixelBuf, String>(made),
            _ => may_decode_serially(bytes, buf),
        };
    law_first_phase_gives_rows_of_the_picture(bytes, layout, rgba, None, threads, begun);
    if begun !is Done {
        lemma_serial_decode_gives_frame(bytes, layout, rgba, buf);
    }
}

proof fn lemma_serial_decode_gives_frame(
    bytes: Seq<u8>,
    layout: LayoutModel,
    rgba: Seq<u8>,
    buf: Result<PixelBuf, String>,
)
    requires
        decodes_rowwise(bytes, layout, rgba),
        may_decode_serially(bytes, buf),
    ensures
        buf matches Ok(made) && made@ == frame_of(layout, rgba),
{
    let decoded = choose|decoded: Result<DecodedRgba, String>|
        may_decode(bytes, decode_model(decoded)) && #[trigger] serial_outcome(decoded, buf);
    assert(may_decode(bytes, decode_model(decoded)));
}

/// A stream that cannot be split is decoded serially, whatever the pool.
pub proof fn law_other_streams_decode_serially(bytes: Seq<u8>, buf: Result<PixelBuf, String>)
    requires
        layout_of(bytes) is None,
        may_decode_jpeg(bytes, buf),
    ensures
        may_decode_serially(bytes, buf),
{
}

/// An encoded stream that decodes gives an image of the size that was encoded.
pub proof fn law_encoded_streams_decode_to_their_size(
    buf: crate::types::PixelModel,
    quality: u8,
    interval: int,
    encoded: Result<Vec<u8>, String>,
    stream: &[u8],
    decoded: Result<PixelBuf, String>,
)
    requires
        encode_outcome(buf, quality, interval, encoded),
        encoded matches Ok(bytes) && bytes@ == stream@,
        call_ensures(decode_jpeg, (stream,), decoded),
    ensures
        decoded matches Ok(made) ==> made@.width == buf.width && made@.height == buf.height,
{
}

/// Whether the decoder reads a stream as one opaque picture: whole, and, where the
/// stream can be split, each run of its rows as the same rows of the picture.
pub open spec fn reads_opaque_picture(
    stream: Seq<u8>,
    width: int,
    height: int,
    rgba: Seq<u8>,
) -> bool {
    &&& match layout_of(stream) {
        Some(layout) => decodes_rowwise(stream, layout, rgba),
        None => decodes_to(stream, width, height, rgba),
    }
    &&& forall|i: int| 0 <= i < rgba.len() && i % 4 == 3 ==> #[trigger] rgba[i] == 255
}

/// Where the decoder reads an encoded stream as an opaque picture, every decode of
/// it succeeds, on a pool of any size, with the size that was encoded and every
/// alpha byte 255.
pub proof fn law_encoded_streams_decode_to_opaque_pictures(
    buf: crate::types::PixelModel,
    quality: u8,
    interval: int,
    encoded: Result<Vec<u8>, String>,
    rgba: Seq<u8>,
    decoded: Result<PixelBuf, String>,
)
    requires
        encode_outcome(buf, quality, interval, encoded),
        encoded matches Ok(bytes) && reads_opaque_picture(
            bytes@,
            buf.width as int,
            buf.height as int,
            rgba,
        ) && may_decode_jpeg(bytes@, decoded),
    ensures
        decoded matches Ok(made) && made@.width == buf.width && made@.height == buf.height
            && made@.rgba == rgba && forall|i: int|
            0 <= i < made@.rgba.len() && i % 4 == 3 ==> #[trigger] made@.rgba[i] == 255,
{
    let stream = encoded->Ok_0@;
    if let Some(layout) = layout_of(stream) {
        lemma_layout_has_header_size(stream, layout);
        lemma_any_decode_gives_frame(stream, layout, rgba, decoded);
    } else {
        law_other_streams_decode_serially(stream, decoded);
        let outcome = choose|outcome: Result<DecodedRgba, String>|
            may_decode(stream, decode_model(outcome)) && #[trigger] serial_outcome(
                outcome,
                decoded,
            );
        assert(may_decode(stream, decode_model(outcome)));
    }
}

/// A stream with a row that the decoder can make nothing of is decoded as the
/// serial decode decodes it, on a pool of any size: with its error, if that fails.
pub proof fn law_damaged_streams_decode_serially(
    bytes: Seq<u8>,
    layout: LayoutModel,
    row: int,
    buf: Result<PixelBuf, String>,
)
    requires
        layout_of(bytes) == Some(layout),
        is_damaged(bytes, layout, row),
        may_decode_jpeg(bytes, buf),
    ensures
        may_decode_serially(bytes, buf),
{
    let (threads, begun) = choose|threads: usize, begun: BandDecode| #[trigger]
        may_begin(bytes, None, threads, begun) && match begun {
            BandDecode::Done(made) => buf == Ok::<PixelBuf, String>(made),
            _ => may_decode_serially(bytes, buf),
        };
    lemma_damaged_first_phase(bytes, layout, row, None, threads, begun);
}

} // verus!
