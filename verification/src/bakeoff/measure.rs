//! What is measured of an encoded image.

use vstd::prelude::*;

use super::fixtures::Fixture;
use super::{codec_name, sampling_name, Codec, Sampling};
use crate::codec::{decode_model, decode_rgba, encode_outcome, may_decode, DecodedRgba};
use crate::jpeg_restart::{
    be16, ceil_div, div_ceil, is_standalone, larger, lemma_marker_at, marker_at, read_be16,
    skip_fill,
};
use crate::text::{decimal, push_decimal};
use crate::types::PixelBuf;

verus! {

// ---------------------------------------------------------------------------
// Chroma sampling
// ---------------------------------------------------------------------------

/// Whether a marker starts a frame header of any kind.
pub open spec fn is_frame(marker: u8) -> bool {
    0xC0 <= marker <= 0xCF && marker != 0xC4 && marker != 0xC8 && marker != 0xCC
}

/// The sampling of the frame header whose length field is at `at`: full chroma
/// resolution means three components, each with factors of one.
pub open spec fn frame_sampling(bytes: Seq<u8>, at: int) -> Result<Sampling, Seq<char>> {
    if be16(bytes, at) < 11 {
        Err("truncated JPEG frame header"@)
    } else if bytes[at + 7] == 3 && be16(bytes, at) >= 17 && bytes[at + 9] == 0x11 && bytes[at + 12]
        == 0x11 && bytes[at + 15] == 0x11 {
        Ok(Sampling::S444)
    } else {
        Ok(Sampling::Other)
    }
}

/// The sampling of the first frame header at or after `at`, a position between
/// segments. The scan, and the end of the stream, come after every frame header.
pub open spec fn sampling_from(bytes: Seq<u8>, at: int) -> Result<Sampling, Seq<char>>
    decreases bytes.len() - at,
{
    if at < 0 || at + 4 > bytes.len() {
        Err("JPEG frame header not found"@)
    } else if bytes[at] != 0xFF {
        Err("invalid JPEG marker at offset "@ + decimal(at as nat))
    } else {
        match marker_at(bytes, at) {
            None => Err("truncated JPEG marker"@),
            Some(code) => {
                let marker = bytes[code];
                let next = code + 1;
                proof {
                    lemma_marker_at(bytes, at);
                }
                if marker == 0xD9 || marker == 0xDA {
                    Err("JPEG frame header not found"@)
                } else if is_standalone(marker) {
                    sampling_from(bytes, next)
                } else if next + 2 > bytes.len() {
                    Err("truncated JPEG segment length"@)
                } else if be16(bytes, next) < 2 || next + be16(bytes, next) > bytes.len() {
                    Err("invalid JPEG segment length"@)
                } else if is_frame(marker) {
                    frame_sampling(bytes, next)
                } else {
                    sampling_from(bytes, next + be16(bytes, next))
                }
            },
        }
    }
}

/// The sampling of a JPEG stream.
pub open spec fn sampling_of(bytes: Seq<u8>) -> Result<Sampling, Seq<char>> {
    if bytes.len() < 4 || bytes[0] != 0xFF || bytes[1] != 0xD8 {
        Err("not a JPEG stream"@)
    } else {
        sampling_from(bytes, 2)
    }
}

/// Whether a result is one with a text as its error.
pub open spec fn result_is<T>(result: Result<T, String>, expected: Result<T, Seq<char>>) -> bool {
    match expected {
        Ok(value) => result == Ok::<T, String>(value),
        Err(text) => result matches Err(error) && error@ == text,
    }
}

fn read_frame_sampling(bytes: &[u8], at: usize) -> (sampling: Result<Sampling, String>)
    requires
        at + 2 <= bytes@.len(),
        at + be16(bytes@, at as int) <= bytes@.len(),
    ensures
        result_is(sampling, frame_sampling(bytes@, at as int)),
{
    let len: usize = bytes.len();
    let length: usize = read_be16(bytes, at);
    if length < 11 {
        return Err(String::from_str("truncated JPEG frame header"));
    }
    if bytes[at + 7] == 3 && length >= 17 && bytes[at + 9] == 0x11 && bytes[at + 12] == 0x11
        && bytes[at + 15] == 0x11 {
        Ok(Sampling::S444)
    } else {
        Ok(Sampling::Other)
    }
}

/// Reads the chroma sampling out of the frame header of a JPEG stream.
pub fn jpeg_sampling(bytes: &[u8]) -> (sampling: Result<Sampling, String>)
    ensures
        result_is(sampling, sampling_of(bytes@)),
{
    let len: usize = bytes.len();
    if len < 4 || bytes[0] != 0xFF || bytes[1] != 0xD8 {
        return Err(String::from_str("not a JPEG stream"));
    }
    let mut offset: usize = 2;
    while len - offset >= 4
        invariant
            len == bytes@.len(),
            offset <= len,
            sampling_of(bytes@) == sampling_from(bytes@, offset as int),
        decreases len - offset,
    {
        if bytes[offset] != 0xFF {
            let mut text = String::from_str("invalid JPEG marker at offset ");
            push_decimal(&mut text, offset as u64);
            return Err(text);
        }
        proof {
            lemma_marker_at(bytes@, offset as int);
        }
        let code: usize = match skip_fill(bytes, offset) {
            None => {
                return Err(String::from_str("truncated JPEG marker"));
            },
            Some(code) => code,
        };
        let marker: u8 = bytes[code];
        let next: usize = code + 1;
        if marker == 0xD9 || marker == 0xDA {
            return Err(String::from_str("JPEG frame header not found"));
        }
        if marker == 0x01 || (0xD0 <= marker && marker <= 0xD7) {
            offset = next;
            continue;
        }
        if len - next < 2 {
            return Err(String::from_str("truncated JPEG segment length"));
        }
        let length: usize = read_be16(bytes, next);
        if length < 2 || length > len - next {
            return Err(String::from_str("invalid JPEG segment length"));
        }
        if 0xC0 <= marker && marker <= 0xCF && marker != 0xC4 && marker != 0xC8 && marker != 0xCC {
            return read_frame_sampling(bytes, next);
        }
        offset = next + length;
    }
    Err(String::from_str("JPEG frame header not found"))
}

// ---------------------------------------------------------------------------
// Errors of the pixels
// ---------------------------------------------------------------------------

/// A color sample of a row of RGBA pixels: three per pixel.
pub open spec fn sample_at(rgba: Seq<u8>, i: int) -> int {
    rgba[i / 3 * 4 + i % 3] as int
}

/// Distance of two numbers.
pub open spec fn distance(a: int, b: int) -> int {
    if a < b {
        b - a
    } else {
        a - b
    }
}

/// The sum of the squared differences of the first `n` samples.
pub open spec fn squared_error(source: Seq<u8>, decoded: Seq<u8>, n: int) -> int
    decreases n,
{
    if n <= 0 {
        0
    } else {
        let difference = distance(sample_at(source, n - 1), sample_at(decoded, n - 1));
        squared_error(source, decoded, n - 1) + difference * difference
    }
}

/// The largest difference among the first `n` samples.
pub open spec fn largest_error(source: Seq<u8>, decoded: Seq<u8>, n: int) -> int
    decreases n,
{
    if n <= 0 {
        0
    } else {
        larger(
            largest_error(source, decoded, n - 1),
            distance(sample_at(source, n - 1), sample_at(decoded, n - 1)),
        )
    }
}

/// Color samples that two images have in common.
pub open spec fn shared_samples(source: Seq<u8>, decoded: Seq<u8>) -> int {
    let shorter = if source.len() < decoded.len() {
        source.len()
    } else {
        decoded.len()
    };
    shorter as int / 4 * 3
}

/// How far a decoded image is from its source.
#[derive(Clone, Copy, Debug, PartialEq, Eq, Structural)]
pub struct RgbError {
    /// Sum of the squared differences.
    pub squared: u128,
    /// Number of samples.
    pub samples: u64,
    /// Largest difference.
    pub max_abs: u8,
}

/// What [`rgb_error`] finds.
pub open spec fn is_rgb_error(source: Seq<u8>, decoded: Seq<u8>, error: RgbError) -> bool {
    let samples = shared_samples(source, decoded);
    &&& error.samples == samples
    &&& error.squared == squared_error(source, decoded, samples)
    &&& error.max_abs == largest_error(source, decoded, samples)
}

fn sample(rgba: &[u8], i: usize) -> (value: u8)
    requires
        i / 3 * 4 + i % 3 < rgba@.len(),
    ensures
        value == sample_at(rgba@, i as int),
{
    let len: usize = rgba.len();
    rgba[i / 3 * 4 + i % 3]
}

fn byte_distance(a: u8, b: u8) -> (d: u8)
    ensures
        d == distance(a as int, b as int),
{
    if a < b {
        b - a
    } else {
        a - b
    }
}

/// Compares the colors of two images, pixel by pixel.
pub fn rgb_error(source: &[u8], decoded: &[u8]) -> (error: RgbError)
    ensures
        is_rgb_error(source@, decoded@, error),
{
    let source_len: usize = source.len();
    let decoded_len: usize = decoded.len();
    let shorter: usize = if source_len < decoded_len {
        source_len
    } else {
        decoded_len
    };
    let samples: usize = shorter / 4 * 3;
    let mut squared: u128 = 0;
    let mut max_abs: u8 = 0;
    let mut i: usize = 0;
    while i < samples
        invariant
            i <= samples,
            samples == shorter / 4 * 3,
            shorter <= source@.len(),
            shorter <= decoded@.len(),
            squared == squared_error(source@, decoded@, i as int),
            squared <= i * 65_025,
            max_abs == largest_error(source@, decoded@, i as int),
        decreases samples - i,
    {
        let difference: u8 = byte_distance(sample(source, i), sample(decoded, i));
        assert(difference * difference <= 65_025) by (nonlinear_arith)
            requires
                difference <= 255,
        ;
        squared = squared + difference as u128 * difference as u128;
        if max_abs < difference {
            max_abs = difference;
        }
        i += 1;
    }
    RgbError { squared, samples: samples as u64, max_abs }
}

/// How far the step from the pixel of a sample to the next pixel is off.
pub open spec fn step_error(source: Seq<u8>, decoded: Seq<u8>, k: int) -> int {
    distance(
        sample_at(source, k + 3) - sample_at(source, k),
        sample_at(decoded, k + 3) - sample_at(decoded, k),
    )
}

/// The sum of the first `n` step errors of a row.
pub open spec fn row_error(source: Seq<u8>, decoded: Seq<u8>, n: int) -> int
    decreases n,
{
    if n <= 0 {
        0
    } else {
        row_error(source, decoded, n - 1) + step_error(source, decoded, n - 1)
    }
}

/// A row of an image of some width.
pub open spec fn row_of(rgba: Seq<u8>, width: int, row: int) -> Seq<u8> {
    rgba.subrange(row * (width * 4), (row + 1) * (width * 4))
}

/// The sum of the step errors of the first `rows` rows.
pub open spec fn neighbor_error(
    source: Seq<u8>,
    decoded: Seq<u8>,
    width: int,
    rows: int,
) -> int
    decreases rows,
{
    if rows <= 0 {
        0
    } else {
        neighbor_error(source, decoded, width, rows - 1) + row_error(
            row_of(source, width, rows - 1),
            row_of(decoded, width, rows - 1),
            (width - 1) * 3,
        )
    }
}

/// How far the steps between horizontal neighbors of a decoded image are off.
#[derive(Clone, Copy, Debug, PartialEq, Eq, Structural)]
pub struct NeighborDelta {
    /// Sum of the differences.
    pub total: u128,
    /// Number of steps.
    pub samples: u128,
}

/// Rows that two images of some width have in common.
pub open spec fn shared_rows(source: Seq<u8>, decoded: Seq<u8>, width: int) -> int {
    let shorter = if source.len() < decoded.len() {
        source.len()
    } else {
        decoded.len()
    };
    shorter as int / (width * 4)
}

fn row_delta(source: &[u8], decoded: &[u8], base: usize, width: usize) -> (total: u128)
    requires
        0 < width,
        base + width * 4 <= source@.len(),
        base + width * 4 <= decoded@.len(),
    ensures
        total == row_error(
            source@.subrange(base as int, base + width * 4),
            decoded@.subrange(base as int, base + width * 4),
            (width - 1) * 3,
        ),
        total <= (width - 1) * 3 * 510,
{
    let source_len: usize = source.len();
    let ghost source_row = source@.subrange(base as int, base + width * 4);
    let ghost decoded_row = decoded@.subrange(base as int, base + width * 4);
    let steps: usize = (width - 1) * 3;
    let mut total: u128 = 0;
    let mut k: usize = 0;
    while k < steps
        invariant
            k <= steps,
            steps == (width - 1) * 3,
            base + width * 4 <= source@.len(),
            base + width * 4 <= decoded@.len(),
            source@.len() <= usize::MAX,
            source_row == source@.subrange(base as int, base + width * 4),
            decoded_row == decoded@.subrange(base as int, base + width * 4),
            total == row_error(source_row, decoded_row, k as int),
            total <= k * 510,
        decreases steps - k,
    {
        let at: usize = base + (k / 3 * 4 + k % 3);
        assert((k + 3) as int / 3 * 4 + (k + 3) as int % 3 == k as int / 3 * 4 + k as int % 3 + 4);
        let source_step: i32 = source[at + 4] as i32 - source[at] as i32;
        let decoded_step: i32 = decoded[at + 4] as i32 - decoded[at] as i32;
        let difference: i32 = if source_step < decoded_step {
            decoded_step - source_step
        } else {
            source_step - decoded_step
        };
        assert(difference == step_error(source_row, decoded_row, k as int));
        total = total + difference as u128;
        k += 1;
    }
    total
}

/// Compares the steps between horizontal neighbors of two images of some width.
pub fn neighbor_delta(source: &[u8], decoded: &[u8], width: u32) -> (delta: NeighborDelta)
    requires
        0 < width,
    ensures
        delta.total == neighbor_error(
            source@,
            decoded@,
            width as int,
            shared_rows(source@, decoded@, width as int),
        ),
        delta.samples == shared_rows(source@, decoded@, width as int) * ((width - 1) * 3),
{
    let source_len: usize = source.len();
    let decoded_len: usize = decoded.len();
    let shorter: usize = if source_len < decoded_len {
        source_len
    } else {
        decoded_len
    };
    let ghost w = width as int;
    let ghost per_row = (w - 1) * 3;
    let stride: u64 = width as u64 * 4;
    let rows: u64 = shorter as u64 / stride;
    let mut total: u128 = 0;
    let mut samples: u128 = 0;
    let mut row: u64 = 0;
    proof {
        assert(rows * stride <= shorter) by (nonlinear_arith)
            requires
                rows == shorter as int / stride as int,
                stride > 0,
        ;
    }
    while row < rows
        invariant
            row <= rows,
            w == width,
            0 < width,
            per_row == (w - 1) * 3,
            stride == w * 4,
            rows * stride <= shorter,
            shorter <= source@.len(),
            shorter <= decoded@.len(),
            total == neighbor_error(source@, decoded@, w, row as int),
            total <= row * stride * 510,
            samples == row * per_row,
            samples <= row * stride,
        decreases rows - row,
    {
        proof {
            assert((row + 1) * stride <= rows * stride) by (nonlinear_arith)
                requires
                    row + 1 <= rows,
            ;
            assert((row + 1) * stride == row * stride + stride) by (nonlinear_arith);
            assert((row + 1) * per_row == row * per_row + per_row) by (nonlinear_arith);
            assert((row + 1) * stride * 510 == row * stride * 510 + stride * 510)
                by (nonlinear_arith);
            assert(row * (w * 4) == row * stride) by (nonlinear_arith)
                requires
                    stride == w * 4,
            ;
            assert((row + 1) * (w * 4) == row * stride + stride) by (nonlinear_arith)
                requires
                    stride == w * 4,
            ;
        }
        let base: usize = (row * stride) as usize;
        total = total + row_delta(source, decoded, base, width as usize);
        samples = samples + (width as u128 - 1) * 3;
        row += 1;
    }
    NeighborDelta { total, samples }
}

// ---------------------------------------------------------------------------
// Examining an encoded image
// ---------------------------------------------------------------------------

/// What an encoded image turned out to be.
#[derive(Clone, Copy, Debug, PartialEq, Eq, Structural)]
pub struct Examined {
    pub sampling: Sampling,
    pub error: RgbError,
    pub delta: NeighborDelta,
}

/// Whether every pixel of an image is opaque.
pub open spec fn all_opaque(rgba: Seq<u8>) -> bool {
    forall|i: int| 0 <= i && i * 4 + 3 < rgba.len() ==> #[trigger] alpha_at(rgba, i) == 255
}

/// The alpha of a pixel.
pub open spec fn alpha_at(rgba: Seq<u8>, i: int) -> u8 {
    rgba[i * 4 + 3]
}

/// Dimensions as a text.
pub open spec fn dimensions_chars(width: nat, height: nat) -> Seq<char> {
    decimal(width) + "x"@ + decimal(height)
}

/// Why an encoded image is refused, from what a decoder made of it. A codec has
/// to give back an opaque image of the same dimensions at full chroma
/// resolution.
pub open spec fn examine_error(
    codec: Codec,
    fixture: Fixture,
    encoded: Seq<u8>,
    decoded: Result<DecodedRgba, String>,
) -> Option<Seq<char>> {
    match decoded {
        Err(_) => Some("zune-jpeg cross-decode failed"@),
        Ok(rgba) => match rgba.dimensions {
            None => Some("JPEG has no dimensions"@),
            Some((width, height)) => if width != fixture.width || height != fixture.height {
                Some(
                    codec_name(codec)@ + " returned "@ + dimensions_chars(
                        width as nat,
                        height as nat,
                    ) + ", expected "@ + dimensions_chars(
                        fixture.width as nat,
                        fixture.height as nat,
                    ),
                )
            } else if !all_opaque(rgba.pixels@) {
                Some(codec_name(codec)@ + " decoded with non-opaque alpha"@)
            } else {
                match sampling_of(encoded) {
                    Err(text) => Some(text),
                    Ok(Sampling::S444) => None,
                    Ok(Sampling::Other) => Some(
                        codec_name(codec)@ + " emitted "@ + sampling_name(Sampling::Other)@
                            + " instead of required 4:4:4"@,
                    ),
                }
            },
        },
    }
}

/// What [`examine`] returns.
pub open spec fn is_examined(
    codec: Codec,
    fixture: Fixture,
    encoded: Seq<u8>,
    decoded: Result<DecodedRgba, String>,
    examined: Result<Examined, String>,
) -> bool {
    match examine_error(codec, fixture, encoded, decoded) {
        Some(text) => examined matches Err(error) && error@ == text,
        None => examined matches Ok(found) && decoded matches Ok(rgba) && {
            let rows = shared_rows(fixture.rgba@, rgba.pixels@, fixture.width as int);
            &&& found.sampling == Sampling::S444
            &&& is_rgb_error(fixture.rgba@, rgba.pixels@, found.error)
            &&& found.delta.total == neighbor_error(
                fixture.rgba@,
                rgba.pixels@,
                fixture.width as int,
                rows,
            )
            &&& found.delta.samples == rows * ((fixture.width - 1) * 3)
        },
    }
}

fn is_opaque(rgba: &[u8]) -> (opaque: bool)
    ensures
        opaque == all_opaque(rgba@),
{
    let len: usize = rgba.len();
    let pixels: usize = len / 4;
    let mut i: usize = 0;
    while i < pixels
        invariant
            i <= pixels,
            len == rgba@.len(),
            pixels == len as int / 4,
            forall|j: int| 0 <= j < i ==> #[trigger] alpha_at(rgba@, j) == 255,
        decreases pixels - i,
    {
        if rgba[i * 4 + 3] != 255 {
            assert(alpha_at(rgba@, i as int) != 255);
            return false;
        }
        i += 1;
    }
    true
}

fn push_dimensions(text: &mut String, width: u64, height: u64)
    ensures
        final(text)@ == old(text)@ + dimensions_chars(width as nat, height as nat),
{
    push_decimal(text, width);
    text.append("x");
    push_decimal(text, height);
    assert(text@ =~= old(text)@ + dimensions_chars(width as nat, height as nat));
}

fn dimensions_text(codec: Codec, fixture: &Fixture, width: usize, height: usize) -> (text: String)
    ensures
        text@ == codec_name(codec)@ + " returned "@ + dimensions_chars(width as nat, height as nat)
            + ", expected "@ + dimensions_chars(fixture.width as nat, fixture.height as nat),
{
    let mut text = String::from_str(codec.name());
    text.append(" returned ");
    push_dimensions(&mut text, width as u64, height as u64);
    text.append(", expected ");
    push_dimensions(&mut text, fixture.width as u64, fixture.height as u64);
    text
}

/// Examines an encoded image, from what a decoder made of it.
pub fn examine(
    codec: Codec,
    fixture: &Fixture,
    encoded: &[u8],
    decoded: Result<DecodedRgba, String>,
) -> (examined: Result<Examined, String>)
    requires
        fixture.width > 0,
    ensures
        is_examined(codec, *fixture, encoded@, decoded, examined),
{
    let rgba = match decoded {
        Err(_) => {
            return Err(String::from_str("zune-jpeg cross-decode failed"));
        },
        Ok(rgba) => rgba,
    };
    match rgba.dimensions {
        None => {
            return Err(String::from_str("JPEG has no dimensions"));
        },
        Some((width, height)) => {
            if width as u64 != fixture.width as u64 || height as u64 != fixture.height as u64 {
                return Err(dimensions_text(codec, fixture, width, height));
            }
        },
    }
    if !is_opaque(rgba.pixels.as_slice()) {
        let mut text = String::from_str(codec.name());
        text.append(" decoded with non-opaque alpha");
        return Err(text);
    }
    match jpeg_sampling(encoded) {
        Err(error) => {
            return Err(error);
        },
        Ok(Sampling::S444) => {},
        Ok(Sampling::Other) => {
            let mut text = String::from_str(codec.name());
            text.append(" emitted ");
            text.append(Sampling::Other.name());
            text.append(" instead of required 4:4:4");
            return Err(text);
        },
    }
    let error = rgb_error(fixture.rgba.as_slice(), rgba.pixels.as_slice());
    let delta = neighbor_delta(fixture.rgba.as_slice(), rgba.pixels.as_slice(), fixture.width);
    Ok(Examined { sampling: Sampling::S444, error, delta })
}

/// Decodes an encoded image and examines it.
pub fn cross_decode(codec: Codec, fixture: &Fixture, encoded: &[u8]) -> (examined: Result<
    Examined,
    String,
>)
    requires
        fixture.width > 0,
    ensures
        exists|decoded: Result<DecodedRgba, String>|
            may_decode(encoded@, decode_model(decoded)) && #[trigger] is_examined(
                codec,
                *fixture,
                encoded@,
                decoded,
                examined,
            ),
{
    let decoded = decode_rgba(encoded);
    let ghost outcome = decoded;
    let examined = examine(codec, fixture, encoded, decoded);
    assert(is_examined(codec, *fixture, encoded@, outcome, examined));
    examined
}

/// An image that comes back unchanged is measured as free of error.
pub proof fn law_unchanged_image_has_no_error(
    codec: Codec,
    fixture: Fixture,
    encoded: Seq<u8>,
    decoded: DecodedRgba,
    examined: Examined,
)
    requires
        decoded.pixels@ == fixture.rgba@,
        is_examined(codec, fixture, encoded, Ok(decoded), Ok(examined)),
    ensures
        examined.error.squared == 0,
        examined.error.max_abs == 0,
        examined.delta.total == 0,
{
    let rgba = fixture.rgba@;
    lemma_no_error(rgba, shared_samples(rgba, rgba));
    lemma_no_step_error(
        rgba,
        fixture.width as int,
        shared_rows(rgba, rgba, fixture.width as int),
    );
}

proof fn lemma_no_error(rgba: Seq<u8>, n: int)
    ensures
        squared_error(rgba, rgba, n) == 0,
        largest_error(rgba, rgba, n) == 0,
    decreases n,
{
    if n > 0 {
        lemma_no_error(rgba, n - 1);
    }
}

proof fn lemma_no_row_error(row: Seq<u8>, n: int)
    ensures
        row_error(row, row, n) == 0,
    decreases n,
{
    if n > 0 {
        lemma_no_row_error(row, n - 1);
    }
}

proof fn lemma_no_step_error(rgba: Seq<u8>, width: int, rows: int)
    ensures
        neighbor_error(rgba, rgba, width, rows) == 0,
    decreases rows,
{
    if rows > 0 {
        lemma_no_step_error(rgba, width, rows - 1);
        lemma_no_row_error(row_of(rgba, width, rows - 1), (width - 1) * 3);
    }
}

// ---------------------------------------------------------------------------
// Checksums and medians
// ---------------------------------------------------------------------------

/// Left rotation of a checksum by seven bits.
pub open spec fn rotated(checksum: u64) -> u64 {
    (checksum << 7) | (checksum >> 57)
}

/// A checksum after its first `n` samples.
pub open spec fn checksum_after(seed: u64, rgba: Seq<u8>, n: int) -> u64
    decreases n,
{
    if n <= 0 {
        seed
    } else {
        rotated(checksum_after(seed, rgba, n - 1)) ^ (rgba[(n - 1) * 4_099] as u64)
    }
}

/// The checksum of an image.
pub open spec fn checksum_of(width: u32, height: u32, rgba: Seq<u8>) -> u64 {
    let seed = ((width as u64) << 32) | (height as u64);
    checksum_after(
        seed,
        rgba,
        ceil_div(rgba.len() as int, 4_099),
    ) ^ (rgba.len() as u64)
}

/// The checksum of an image: its dimensions, its length and every byte at a
/// prime distance.
pub fn pixel_checksum(pixels: &PixelBuf) -> (checksum: u64)
    ensures
        checksum == checksum_of(pixels@.width as u32, pixels@.height as u32, pixels@.rgba),
{
    broadcast use PixelBuf::view_fields;

    let rgba: &[u8] = pixels.rgba();
    let len: usize = rgba.len();
    let seed: u64 = ((pixels.width as u64) << 32) | (pixels.height as u64);
    let samples: usize = div_ceil(len, 4_099);
    let mut checksum: u64 = seed;
    let mut k: usize = 0;
    while k < samples
        invariant
            k <= samples,
            len == rgba@.len(),
            samples == ceil_div(len as int, 4_099),
            checksum == checksum_after(seed, rgba@, k as int),
        decreases samples - k,
    {
        checksum = ((checksum << 7) | (checksum >> 57)) ^ (rgba[k * 4_099] as u64);
        k += 1;
    }
    checksum ^ (len as u64)
}

/// Whether numbers never fall.
pub open spec fn is_rising(values: Seq<u128>) -> bool {
    forall|i: int, j: int| 0 <= i <= j < values.len() ==> values[i] <= values[j]
}

/// Whether a number stands in the middle of some numbers in rising order; of an
/// even number of them it is the upper one.
pub open spec fn is_median(values: Seq<u128>, middle: u128) -> bool {
    exists|rising: Seq<u128>|
        #[trigger] is_rising(rising) && rising.to_multiset() == values.to_multiset()
            && rising.len() == values.len() && middle == rising[values.len() as int / 2]
}

/// Inserts a number into numbers in rising order.
fn insert_rising(rising: &mut Vec<u128>, value: u128)
    requires
        is_rising(old(rising)@),
    ensures
        is_rising(final(rising)@),
        final(rising)@.to_multiset() == old(rising)@.to_multiset().insert(value),
        final(rising)@.len() == old(rising)@.len() + 1,
{
    broadcast use vstd::seq_lib::group_to_multiset_ensures;

    let ghost before = rising@;
    let mut at: usize = rising.len();
    while at > 0 && rising[at - 1] > value
        invariant
            at <= rising@.len(),
            rising@ == before,
            is_rising(before),
            forall|i: int| at <= i < before.len() ==> value < before[i],
        decreases at,
    {
        at -= 1;
    }
    rising.insert(at, value);
    proof {
        let after = rising@;
        assert(after == before.insert(at as int, value));
        assert(after.remove(at as int) =~= before);
        assert(after[at as int] == value);
        vstd::seq_lib::to_multiset_remove(after, at as int);
        assert(after.to_multiset() =~= before.to_multiset().insert(value));
        assert forall|i: int, j: int| 0 <= i <= j < after.len() implies after[i] <= after[j] by {
            if i < at && at > 0 {
                assert(before[i] <= before[at - 1]);
            }
        }
    }
}

/// The median of some numbers.
pub fn median(values: Vec<u128>) -> (middle: u128)
    requires
        values@.len() > 0,
    ensures
        is_median(values@, middle),
{
    let mut rising: Vec<u128> = Vec::new();
    let len: usize = values.len();
    let mut i: usize = 0;
    proof {
        assert(values@.take(0) =~= rising@);
    }
    while i < len
        invariant
            i <= len,
            len == values@.len(),
            is_rising(rising@),
            rising@.len() == i,
            rising@.to_multiset() == values@.take(i as int).to_multiset(),
        decreases len - i,
    {
        proof {
            assert(values@.take(i + 1) =~= values@.take(i as int).push(values@[i as int]));
            vstd::seq_lib::to_multiset_build(values@.take(i as int), values@[i as int]);
        }
        insert_rising(&mut rising, values[i]);
        i += 1;
    }
    assert(values@.take(len as int) =~= values@);
    assert(is_rising(rising@));
    rising[len / 2]
}

/// Whatever the buffer and the quality, an encoded stream has full chroma
/// resolution and records the dimensions of the buffer.
pub proof fn law_encoded_streams_have_full_chroma(
    buf: crate::types::PixelModel,
    quality: u8,
    interval: int,
    encoded: Result<Vec<u8>, String>,
)
    requires
        encode_outcome(buf, quality, interval, encoded),
        encoded is Ok,
    ensures
        sampling_of(encoded->Ok_0@) == Ok::<Sampling, Seq<char>>(Sampling::S444),
        be16(encoded->Ok_0@, 163) == buf.height,
        be16(encoded->Ok_0@, 165) == buf.width,
{
    let stream = encoded->Ok_0@;
    reveal_with_fuel(marker_at, 2);
    assert(marker_at(stream, 158) == Some(159int));
    assert(sampling_from(stream, 158) == frame_sampling(stream, 160));
    assert(marker_at(stream, 89) == Some(90int));
    assert(sampling_from(stream, 89) == sampling_from(stream, 158));
    assert(marker_at(stream, 20) == Some(21int));
    assert(sampling_from(stream, 20) == sampling_from(stream, 89));
    assert(marker_at(stream, 2) == Some(3int));
    assert(sampling_from(stream, 2) == sampling_from(stream, 20));
}

// ---------------------------------------------------------------------------
// What the measures add up
// ---------------------------------------------------------------------------

/// Square of the difference of one color of one pixel.
pub open spec fn color_square(source: Seq<u8>, decoded: Seq<u8>, pixel: int, color: int) -> int {
    let difference = source[4 * pixel + color] - decoded[4 * pixel + color];
    difference * difference
}

/// Squares of the differences of the first `pixels` pixels, their alpha left out.
pub open spec fn color_squares(source: Seq<u8>, decoded: Seq<u8>, pixels: int) -> int
    decreases pixels,
{
    if pixels <= 0 {
        0
    } else {
        color_squares(source, decoded, pixels - 1) + color_square(source, decoded, pixels - 1, 0)
            + color_square(source, decoded, pixels - 1, 1) + color_square(
            source,
            decoded,
            pixels - 1,
            2,
        )
    }
}

proof fn lemma_color_squares(source: Seq<u8>, decoded: Seq<u8>, pixels: int)
    requires
        0 <= pixels,
    ensures
        squared_error(source, decoded, 3 * pixels) == color_squares(source, decoded, pixels),
    decreases pixels,
{
    if pixels > 0 {
        let p = pixels - 1;
        lemma_color_squares(source, decoded, p);
        reveal_with_fuel(squared_error, 4);
        assert((3 * p) / 3 == p && (3 * p) % 3 == 0);
        assert((3 * p + 1) / 3 == p && (3 * p + 1) % 3 == 1);
        assert((3 * p + 2) / 3 == p && (3 * p + 2) % 3 == 2);
        assert forall|c: int| 0 <= c < 3 implies ({
            let d = distance(sample_at(source, 3 * p + c), sample_at(decoded, 3 * p + c));
            d * d == #[trigger] color_square(source, decoded, p, c)
        }) by {
            assert((3 * p + c) / 3 == p && (3 * p + c) % 3 == c);
            let d = distance(sample_at(source, 3 * p + c), sample_at(decoded, 3 * p + c));
            let e = source[4 * p + c] - decoded[4 * p + c];
            assert(d == e || d == -e);
            assert(d * d == e * e) by (nonlinear_arith)
                requires
                    d == e || d == -e,
            ;
        }
        let a = color_square(source, decoded, p, 0);
        let b = color_square(source, decoded, p, 1);
        let c = color_square(source, decoded, p, 2);
        assert(squared_error(source, decoded, 3 * p + 1) == squared_error(source, decoded, 3 * p)
            + a);
        assert(squared_error(source, decoded, 3 * p + 2) == squared_error(
            source,
            decoded,
            3 * p + 1,
        ) + b);
        assert(squared_error(source, decoded, 3 * p + 3) == squared_error(
            source,
            decoded,
            3 * p + 2,
        ) + c);
    } else {
        assert(squared_error(source, decoded, 0) == 0);
    }
}

proof fn lemma_largest(source: Seq<u8>, decoded: Seq<u8>, n: int)
    requires
        0 <= n,
    ensures
        forall|k: int|
            0 <= k < n ==> distance(#[trigger] sample_at(source, k), sample_at(decoded, k))
                <= largest_error(source, decoded, n),
        n == 0 ==> largest_error(source, decoded, n) == 0,
        n > 0 ==> exists|k: int|
            0 <= k < n && distance(#[trigger] sample_at(source, k), sample_at(decoded, k))
                == largest_error(source, decoded, n),
    decreases n,
{
    if n > 0 {
        lemma_largest(source, decoded, n - 1);
        assert(distance(sample_at(source, n - 1), sample_at(decoded, n - 1)) >= 0);
        if n > 1 && largest_error(source, decoded, n) == largest_error(source, decoded, n - 1) {
            let k = choose|k: int|
                0 <= k < n - 1 && distance(#[trigger] sample_at(source, k), sample_at(decoded, k))
                    == largest_error(source, decoded, n - 1);
            assert(distance(sample_at(source, k), sample_at(decoded, k)) == largest_error(
                source,
                decoded,
                n,
            ));
        } else {
            assert(distance(sample_at(source, n - 1), sample_at(decoded, n - 1)) == largest_error(
                source,
                decoded,
                n,
            ));
        }
    }
}

/// The error of two images takes in the three colors of every pixel that both have: how
/// many those are, the sum of their squared differences, and the largest difference,
/// which some color has and none exceeds.
pub proof fn law_every_color_counts(
    source: &[u8],
    decoded: &[u8],
    error: RgbError,
    pixels: int,
    pixel: int,
    color: int,
)
    requires
        call_ensures(rgb_error, (source, decoded), error),
        0 <= pixels,
        4 * pixels <= source@.len(),
        4 * pixels <= decoded@.len(),
        source@.len() < 4 * pixels + 4 || decoded@.len() < 4 * pixels + 4,
    ensures
        error.samples == 3 * pixels,
        error.squared == color_squares(source@, decoded@, pixels),
        0 <= pixel < pixels && 0 <= color < 3 ==> source@[4 * pixel + color] - decoded@[4 * pixel
            + color] <= error.max_abs && decoded@[4 * pixel + color] - source@[4 * pixel + color]
            <= error.max_abs,
        pixels == 0 ==> error.max_abs == 0,
        pixels > 0 ==> exists|p: int, c: int|
            0 <= p < pixels && 0 <= c < 3 && (#[trigger] color_square(source@, decoded@, p, c))
                == error.max_abs * error.max_abs,
{
    assert(shared_samples(source@, decoded@) == 3 * pixels);
    lemma_color_squares(source@, decoded@, pixels);
    lemma_largest(source@, decoded@, 3 * pixels);
    if 0 <= pixel < pixels && 0 <= color < 3 {
        let k = 3 * pixel + color;
        assert(k / 3 == pixel && k % 3 == color);
        assert(distance(sample_at(source@, k), sample_at(decoded@, k)) <= error.max_abs);
    }
    if pixels > 0 {
        let k = choose|k: int|
            0 <= k < 3 * pixels && distance(#[trigger] sample_at(source@, k), sample_at(decoded@, k))
                == largest_error(source@, decoded@, 3 * pixels);
        let p = k / 3;
        let c = k % 3;
        let d = error.max_abs as int;
        let e = source@[4 * p + c] - decoded@[4 * p + c];
        assert(d == e || d == -e);
        assert(e * e == d * d) by (nonlinear_arith)
            requires
                d == e || d == -e,
        ;
        assert(color_square(source@, decoded@, p, c) == error.max_abs * error.max_abs);
    }
}

proof fn lemma_sorted_alike(a: Seq<u128>, b: Seq<u128>)
    requires
        is_rising(a),
        is_rising(b),
        a.to_multiset() == b.to_multiset(),
    ensures
        a == b,
{
    let leq = |x: u128, y: u128| x <= y;
    assert(vstd::relations::sorted_by(a, leq));
    assert(vstd::relations::sorted_by(b, leq));
    vstd::seq_lib::lemma_sorted_unique(a, b, leq);
}

/// The median of numbers in rising order is the one in the middle, the upper one where
/// there are two, and their order does not matter.
pub proof fn law_the_median_stands_in_the_middle(
    values: Vec<u128>,
    middle: u128,
    rising: Seq<u128>,
)
    requires
        values@.len() > 0,
        call_ensures(median, (values,), middle),
        forall|i: int, j: int| 0 <= i <= j < rising.len() ==> rising[i] <= rising[j],
        rising.to_multiset() == values@.to_multiset(),
    ensures
        rising.len() == values@.len(),
        values@.len() % 2 == 1 ==> middle == rising[(values@.len() - 1) / 2],
        values@.len() % 2 == 0 ==> middle == rising[values@.len() as int / 2],
{
    broadcast use vstd::seq_lib::group_to_multiset_ensures;

    let found = choose|found: Seq<u128>|
        #[trigger] is_rising(found) && found.to_multiset() == values@.to_multiset() && found.len()
            == values@.len() && middle == found[values@.len() as int / 2];
    lemma_sorted_alike(found, rising);
}

} // verus!
