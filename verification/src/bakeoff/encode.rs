//! The encoders under comparison.

use rayon::ThreadPool;
use vstd::prelude::*;

use super::fixtures::Fixture;
use super::Codec;
use crate::codec::{encoded_rgba, row_interval, rusturbo_encode};
use crate::jpeg_restart::segments::{lemma_takes, takes};
use crate::pool::{build_pool, pool_size};
use crate::text::{decimal, push_decimal};

verus! {

// ---------------------------------------------------------------------------
// Input
// ---------------------------------------------------------------------------

/// Bytes of a fixture with its dimensions.
pub open spec fn expected_len(fixture: Fixture) -> nat {
    (fixture.width * fixture.height * 4) as nat
}

/// Why a fixture cannot be encoded at a quality.
pub open spec fn input_error(fixture: Fixture, quality: u8) -> Option<Seq<char>> {
    if !(1 <= quality <= 100) {
        Some("quality must be in 1..=100"@)
    } else if fixture.width == 0 || fixture.height == 0 {
        Some("zero-sized fixture"@)
    } else if expected_len(fixture) > usize::MAX {
        Some("fixture dimensions overflow"@)
    } else if fixture.rgba@.len() != expected_len(fixture) {
        Some(
            "RGBA length mismatch: got "@ + decimal(fixture.rgba@.len()) + ", expected "@ + decimal(
                expected_len(fixture),
            ),
        )
    } else {
        None
    }
}

/// Bytes of a fixture with its dimensions, if they can be addressed.
fn checked_len(width: u32, height: u32) -> (len: Option<usize>)
    ensures
        match len {
            Some(len) => len == width * height * 4,
            None => width * height * 4 > usize::MAX,
        },
{
    assert(width * height * 4 <= 0xFFFF_FFFF * 0xFFFF_FFFF * 4) by (nonlinear_arith)
        requires
            width <= 0xFFFF_FFFF,
            height <= 0xFFFF_FFFF,
    ;
    let pixels: u128 = width as u128 * height as u128;
    if pixels * 4 > usize::MAX as u128 {
        None
    } else {
        Some((pixels * 4) as usize)
    }
}

/// Checks that a fixture can be encoded at a quality.
pub fn validate_input(fixture: &Fixture, quality: u8) -> (checked: Result<(), String>)
    ensures
        match input_error(*fixture, quality) {
            Some(text) => checked matches Err(error) && error@ == text,
            None => checked is Ok,
        },
{
    if quality < 1 || quality > 100 {
        return Err(String::from_str("quality must be in 1..=100"));
    }
    if fixture.width == 0 || fixture.height == 0 {
        return Err(String::from_str("zero-sized fixture"));
    }
    match checked_len(fixture.width, fixture.height) {
        None => Err(String::from_str("fixture dimensions overflow")),
        Some(expected) => {
            let len: usize = fixture.rgba.len();
            if len != expected {
                let mut text = String::from_str("RGBA length mismatch: got ");
                push_decimal(&mut text, len as u64);
                text.append(", expected ");
                push_decimal(&mut text, expected as u64);
                Err(text)
            } else {
                Ok(())
            }
        },
    }
}

// ---------------------------------------------------------------------------
// Outside encoders
// ---------------------------------------------------------------------------

/// The JPEG stream that the scalar encoder makes of RGBA pixels at full chroma
/// resolution.
pub uninterp spec fn scalar_stream(
    rgba: Seq<u8>,
    width: int,
    height: int,
    quality: int,
) -> Seq<u8>;

/// Wraps `jpeg_encoder::Encoder::encode` with 4:4:4 sampling, writing to a
/// vector. Without its vector feature the encoder runs integer code alone, so the
/// stream depends on the pixels, dimensions and quality. It fails on a zero
/// dimension and on too few bytes only.
#[verifier::external_body]
fn scalar_encode(rgba: &[u8], width: u16, height: u16, quality: u8) -> (encoded: Result<
    Vec<u8>,
    String,
>)
    requires
        1 <= quality <= 100,
        rgba@.len() == width * height * 4,
    ensures
        encoded matches Ok(bytes) ==> bytes@ == scalar_stream(
            rgba@,
            width as int,
            height as int,
            quality as int,
        ),
        width > 0 && height > 0 ==> encoded is Ok,
        width == 0 || height == 0 ==> encoded is Err,
{
    let mut output = Vec::new();
    let mut encoder = jpeg_encoder::Encoder::new(&mut output, quality);
    encoder.set_sampling_factor(jpeg_encoder::SamplingFactor::F_1_1);
    match encoder.encode(rgba, width, height, jpeg_encoder::ColorType::Rgba) {
        Ok(()) => Ok(output),
        Err(error) => Err(format!("{error}")),
    }
}

/// Whether a stream can come out of compressing RGBA pixels at full chroma
/// resolution. Which of several streams comes may depend on the vector
/// instructions of the machine.
pub uninterp spec fn may_compress(
    rgba: Seq<u8>,
    width: int,
    height: int,
    quality: int,
    stream: Seq<u8>,
) -> bool;

/// Wraps `libjpeg_turbo_rs::compress` from RGBA to 4:4:4. It fails on a zero
/// dimension, on one of more than 16 bits, and on too few bytes only. The bytes
/// of the stream are left unsaid: the encoder picks its kernels by the machine it
/// runs on.
#[verifier::external_body]
fn turbo_compress(rgba: &[u8], width: usize, height: usize, quality: u8) -> (encoded: Result<
    Vec<u8>,
    String,
>)
    requires
        1 <= quality <= 100,
        rgba@.len() == width * height * 4,
    ensures
        encoded matches Ok(bytes) ==> may_compress(
            rgba@,
            width as int,
            height as int,
            quality as int,
            bytes@,
        ),
        0 < width <= 0xFFFF && 0 < height <= 0xFFFF ==> encoded is Ok,
        width == 0 || width > 0xFFFF || height == 0 || height > 0xFFFF ==> encoded is Err,
{
    let format = libjpeg_turbo_rs::PixelFormat::Rgba;
    let sampling = libjpeg_turbo_rs::Subsampling::S444;
    match libjpeg_turbo_rs::compress(rgba, width, height, format, quality, sampling) {
        Ok(output) => Ok(output),
        Err(error) => Err(format!("{error}")),
    }
}

// ---------------------------------------------------------------------------
// Encoding
// ---------------------------------------------------------------------------

/// Whether an outcome is an error with a text.
pub open spec fn fails_with(encoded: Result<Vec<u8>, String>, text: Seq<char>) -> bool {
    encoded matches Err(error) && error@ == text
}

/// The outcome of the parallel encoder on a fixture. It fails on dimensions of
/// more than 16 bits, and where it cannot have a pool of its own.
pub open spec fn rusturbo_outcome(
    fixture: Fixture,
    quality: u8,
    threads: u32,
    restart_rows: bool,
    encoded: Result<Vec<u8>, String>,
) -> bool {
    if fixture.width > 0xFFFF || fixture.height > 0xFFFF {
        fails_with(encoded, "jpeg-rusturbo failed"@)
    } else {
        match encoded {
            Ok(bytes) => bytes@ == encoded_rgba(
                fixture.rgba@,
                fixture.width as int,
                fixture.height as int,
                quality as int,
                if restart_rows {
                    row_interval(fixture.width as int)
                } else {
                    0
                },
            ),
            Err(error) => threads > 1 && error@ == "jpeg-rusturbo failed"@,
        }
    }
}

/// The outcome of encoding a fixture with an encoder of this process.
pub open spec fn native_outcome(
    codec: Codec,
    fixture: Fixture,
    quality: u8,
    encoded: Result<Vec<u8>, String>,
) -> bool {
    let width = fixture.width as int;
    let height = fixture.height as int;
    match input_error(fixture, quality) {
        Some(text) => fails_with(encoded, text),
        None => match codec {
            Codec::JpegEncoder => if width > 0xFFFF {
                fails_with(encoded, "width exceeds JPEG API limit"@)
            } else if height > 0xFFFF {
                fails_with(encoded, "height exceeds JPEG API limit"@)
            } else {
                encoded matches Ok(bytes) && bytes@ == scalar_stream(
                    fixture.rgba@,
                    width,
                    height,
                    quality as int,
                )
            },
            Codec::JpegRusturbo { threads } => rusturbo_outcome(
                fixture,
                quality,
                threads,
                false,
                encoded,
            ),
            Codec::JpegRusturboRows { threads } => rusturbo_outcome(
                fixture,
                quality,
                threads,
                true,
                encoded,
            ),
            Codec::LibjpegTurboRs => if width > 0xFFFF || height > 0xFFFF {
                fails_with(encoded, "libjpeg-turbo-rs failed"@)
            } else {
                encoded matches Ok(bytes) && may_compress(
                    fixture.rgba@,
                    width,
                    height,
                    quality as int,
                    bytes@,
                )
            },
            Codec::LibjpegTurboC => true,
        },
    }
}

/// Encodes a fixture with the parallel encoder, with one restart interval per
/// MCU row or none.
pub fn encode_rusturbo(fixture: &Fixture, quality: u8, threads: u32, restart_rows: bool) -> (encoded:
    Result<Vec<u8>, String>)
    requires
        input_error(*fixture, quality) is None,
    ensures
        rusturbo_outcome(*fixture, quality, threads, restart_rows, encoded),
{
    let interval: u16 = if restart_rows {
        let blocks: u32 = fixture.width / 8 + if fixture.width % 8 == 0 {
            0
        } else {
            1
        };
        (blocks % 0x1_0000) as u16
    } else {
        0
    };
    proof {
        if fixture.width <= 0xFFFF && restart_rows {
            assert(interval == row_interval(fixture.width as int));
        }
    }
    match rusturbo_encode(
        fixture.rgba.as_slice(),
        fixture.width,
        fixture.height,
        quality,
        interval,
        threads,
    ) {
        Ok(bytes) => Ok(bytes),
        Err(_) => Err(String::from_str("jpeg-rusturbo failed")),
    }
}

/// Encodes a fixture with the scalar encoder, whose dimensions have 16 bits.
fn encode_scalar(fixture: &Fixture, quality: u8) -> (encoded: Result<Vec<u8>, String>)
    requires
        input_error(*fixture, quality) is None,
    ensures
        native_outcome(Codec::JpegEncoder, *fixture, quality, encoded),
{
    if fixture.width > 0xFFFF {
        return Err(String::from_str("width exceeds JPEG API limit"));
    }
    if fixture.height > 0xFFFF {
        return Err(String::from_str("height exceeds JPEG API limit"));
    }
    match scalar_encode(
        fixture.rgba.as_slice(),
        fixture.width as u16,
        fixture.height as u16,
        quality,
    ) {
        Ok(bytes) => Ok(bytes),
        Err(_) => Err(String::from_str("jpeg-encoder failed")),
    }
}

/// Encodes a fixture at a quality. `turbojpeg` is the C encoder.
pub fn encode<F: Fn(&Fixture, u8) -> Result<Vec<u8>, String>>(
    codec: Codec,
    fixture: &Fixture,
    quality: u8,
    turbojpeg: F,
) -> (encoded: Result<Vec<u8>, String>)
    requires
        input_error(*fixture, quality) is None ==> turbojpeg.requires((fixture, quality)),
    ensures
        native_outcome(codec, *fixture, quality, encoded),
        codec is LibjpegTurboC && input_error(*fixture, quality) is None ==> turbojpeg.ensures(
            (fixture, quality),
            encoded,
        ),
{
    match validate_input(fixture, quality) {
        Err(error) => return Err(error),
        Ok(()) => {},
    }
    match codec {
        Codec::JpegEncoder => encode_scalar(fixture, quality),
        Codec::JpegRusturbo { threads } => encode_rusturbo(fixture, quality, threads, false),
        Codec::JpegRusturboRows { threads } => encode_rusturbo(fixture, quality, threads, true),
        Codec::LibjpegTurboRs => match turbo_compress(
            fixture.rgba.as_slice(),
            fixture.width as usize,
            fixture.height as usize,
            quality,
        ) {
            Ok(bytes) => Ok(bytes),
            Err(_) => Err(String::from_str("libjpeg-turbo-rs failed")),
        },
        Codec::LibjpegTurboC => turbojpeg(fixture, quality),
    }
}

// ---------------------------------------------------------------------------
// Dedicated pool
// ---------------------------------------------------------------------------

/// A dedicated pool for JPEG encoding that is kept from one image to the next.
pub struct DedicatedRusturboEncoder {
    pool: ThreadPool,
    quality: u8,
}

/// Wraps `rayon::ThreadPool::install`: the result is what [`encode_rusturbo`]
/// returned on a worker of the pool.
#[verifier::external_body]
fn install_rusturbo(
    pool: &ThreadPool,
    fixture: &Fixture,
    quality: u8,
    threads: u32,
    restart_rows: bool,
) -> (encoded: Result<Vec<u8>, String>)
    requires
        input_error(*fixture, quality) is None,
    ensures
        call_ensures(encode_rusturbo, (fixture, quality, threads, restart_rows), encoded),
{
    pool.install(|| encode_rusturbo(fixture, quality, threads, restart_rows))
}

impl DedicatedRusturboEncoder {
    /// Workers of the pool.
    pub closed spec fn pool_workers(self) -> nat {
        pool_size(self.pool)
    }

    /// The quality of every image.
    pub closed spec fn at_quality(self) -> u8 {
        self.quality
    }

    /// Whether the quality is one that can be encoded.
    pub open spec fn wf(self) -> bool {
        1 <= self.at_quality() <= 100
    }

    /// A pool of some workers for images of one quality. Whether a pool can be
    /// had depends on the machine; one of a modest size has that size.
    pub fn new(workers: usize, quality: u8) -> (encoder: Result<DedicatedRusturboEncoder, String>)
        ensures
            workers == 0 ==> (encoder matches Err(error) && error@
                == "dedicated JPEG pool must have at least one worker"@),
            workers > 0 && !(1 <= quality <= 100) ==> (encoder matches Err(error) && error@
                == "quality must be in 1..=100"@),
            workers > 0 && 1 <= quality <= 100 ==> match encoder {
                Ok(made) => made.wf() && made.at_quality() == quality && (workers <= 0xFF
                    ==> made.pool_workers() == workers),
                Err(error) => error@ == "dedicated JPEG pool setup failed"@,
            },
    {
        if workers == 0 {
            return Err(String::from_str("dedicated JPEG pool must have at least one worker"));
        }
        if quality < 1 || quality > 100 {
            return Err(String::from_str("quality must be in 1..=100"));
        }
        proof {
            reveal_strlit("jpeg-bakeoff-dedicated-");
        }
        match build_pool(workers, "jpeg-bakeoff-dedicated-") {
            Ok(pool) => Ok(DedicatedRusturboEncoder { pool, quality }),
            Err(_) => Err(String::from_str("dedicated JPEG pool setup failed")),
        }
    }

    /// Workers of the pool.
    pub fn workers(&self) -> (workers: usize)
        ensures
            workers == self.pool_workers(),
    {
        self.pool.current_num_threads()
    }

    /// Encodes a fixture on the pool, as the encoder with all threads does.
    pub fn encode(&self, fixture: &Fixture) -> (encoded: Result<Vec<u8>, String>)
        requires
            self.wf(),
        ensures
            native_outcome(
                Codec::JpegRusturboRows { threads: 0 },
                *fixture,
                self.at_quality(),
                encoded,
            ),
    {
        match validate_input(fixture, self.quality) {
            Err(error) => Err(error),
            Ok(()) => install_rusturbo(&self.pool, fixture, self.quality, 0, true),
        }
    }
}

// ---------------------------------------------------------------------------
// Laws
// ---------------------------------------------------------------------------

/// The number of threads never shows in the stream, nor does a dedicated pool.
pub proof fn law_threads_do_not_change_the_stream(
    fixture: Fixture,
    quality: u8,
    threads: u32,
    other_threads: u32,
    encoded: Vec<u8>,
    other: Vec<u8>,
)
    requires
        native_outcome(Codec::JpegRusturboRows { threads }, fixture, quality, Ok(encoded)),
        native_outcome(
            Codec::JpegRusturboRows { threads: other_threads },
            fixture,
            quality,
            Ok(other),
        ),
    ensures
        encoded@ == other@,
{
}

/// A fixture that cannot be encoded is refused with the same text by every
/// encoder, before any of them runs.
pub proof fn law_invalid_input_is_refused_alike(
    codec: Codec,
    other_codec: Codec,
    fixture: Fixture,
    quality: u8,
    encoded: Result<Vec<u8>, String>,
    other: Result<Vec<u8>, String>,
)
    requires
        input_error(fixture, quality) is Some,
        native_outcome(codec, fixture, quality, encoded),
        native_outcome(other_codec, fixture, quality, other),
    ensures
        encoded matches Err(error) && other matches Err(other_error) && error@ == other_error@,
{
}

// ---------------------------------------------------------------------------
// What is encoded
// ---------------------------------------------------------------------------

/// A fixture can be encoded exactly where the quality is between one and a hundred and
/// there are four bytes for every pixel, at least one. What is wrong is named in that
/// order.
pub proof fn law_only_whole_fixtures_are_encoded(
    fixture: &Fixture,
    quality: u8,
    checked: Result<(), String>,
)
    requires
        call_ensures(validate_input, (fixture, quality), checked),
    ensures
        ({
            let width = fixture.width as int;
            let height = fixture.height as int;
            let graded = 1 <= quality && quality <= 100;
            let sized = width >= 1 && height >= 1;
            &&& checked is Ok <==> graded && sized && fixture.rgba@.len() == width * height * 4
            &&& checked matches Err(text) ==> {
                &&& !graded ==> text@ == "quality must be in 1..=100"@
                &&& graded && !sized ==> text@ == "zero-sized fixture"@
                &&& graded && sized && width * height * 4 > usize::MAX ==> text@
                    == "fixture dimensions overflow"@
                &&& graded && sized && width * height * 4 <= usize::MAX ==> text@
                    == "RGBA length mismatch: got "@ + decimal(fixture.rgba@.len())
                    + ", expected "@ + decimal((width * height * 4) as nat)
            }
        }),
{
    assert(fixture.rgba.len() == fixture.rgba@.len());
}

/// Whether a fixture can be encoded at a quality by an encoder of this process.
pub open spec fn is_whole_fixture(fixture: Fixture, quality: u8) -> bool {
    &&& 1 <= quality && quality <= 100
    &&& 1 <= fixture.width && fixture.width <= 65535
    &&& 1 <= fixture.height && fixture.height <= 65535
    &&& fixture.rgba@.len() == fixture.width * fixture.height * 4
}

/// The parallel encoder makes its stream of all pixels of a fixture, at the quality asked
/// for, with a restart marker after every row of blocks of eight pixels or with none. So
/// does the dedicated pool, always with them.
pub proof fn law_fixtures_are_encoded_whole(
    fixture: &Fixture,
    quality: u8,
    threads: u32,
    restart_rows: bool,
    encoded: Result<Vec<u8>, String>,
    pooled: DedicatedRusturboEncoder,
    dedicated: Result<Vec<u8>, String>,
    interval: int,
)
    requires
        is_whole_fixture(*fixture, quality),
        call_ensures(encode_rusturbo, (fixture, quality, threads, restart_rows), encoded),
        pooled.at_quality() == quality,
        call_ensures(DedicatedRusturboEncoder::encode, (&pooled, fixture), dedicated),
        takes(interval, 8, fixture.width as int),
    ensures
        ({
            let width = fixture.width as int;
            let height = fixture.height as int;
            let stream = encoded_rgba(fixture.rgba@, width, height, quality as int, interval);
            let bare = encoded_rgba(fixture.rgba@, width, height, quality as int, 0);
            &&& threads <= 1 ==> encoded is Ok
            &&& encoded matches Ok(bytes) ==> bytes@ == if restart_rows {
                stream
            } else {
                bare
            }
            &&& dedicated matches Ok(bytes) && bytes@ == stream
        }),
{
    assert(fixture.rgba.len() == fixture.rgba@.len());
    lemma_takes(fixture.width as int, 8, interval);
}

/// Every encoder is handed all pixels of a fixture with its dimensions and quality, and
/// what it gives back is returned.
pub proof fn law_every_encoder_gets_the_whole_fixture<
    F: Fn(&Fixture, u8) -> Result<Vec<u8>, String>,
>(
    codec: Codec,
    fixture: &Fixture,
    quality: u8,
    turbojpeg: F,
    encoded: Result<Vec<u8>, String>,
    interval: int,
)
    requires
        is_whole_fixture(*fixture, quality),
        call_ensures(encode::<F>, (codec, fixture, quality, turbojpeg), encoded),
        takes(interval, 8, fixture.width as int),
    ensures
        ({
            let rgba = fixture.rgba@;
            let width = fixture.width as int;
            let height = fixture.height as int;
            match codec {
                Codec::JpegEncoder => encoded matches Ok(bytes) && bytes@ == scalar_stream(
                    rgba,
                    width,
                    height,
                    quality as int,
                ),
                Codec::JpegRusturbo { threads } => match encoded {
                    Ok(bytes) => bytes@ == encoded_rgba(rgba, width, height, quality as int, 0),
                    Err(_) => threads > 1,
                },
                Codec::JpegRusturboRows { threads } => match encoded {
                    Ok(bytes) => bytes@ == encoded_rgba(
                        rgba,
                        width,
                        height,
                        quality as int,
                        interval,
                    ),
                    Err(_) => threads > 1,
                },
                Codec::LibjpegTurboRs => encoded matches Ok(bytes) && may_compress(
                    rgba,
                    width,
                    height,
                    quality as int,
                    bytes@,
                ),
                Codec::LibjpegTurboC => turbojpeg.ensures((fixture, quality), encoded),
            }
        }),
{
    assert(fixture.rgba.len() == fixture.rgba@.len());
    lemma_takes(fixture.width as int, 8, interval);
}

} // verus!
