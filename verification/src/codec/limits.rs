//! What is decoded and encoded, and what is refused.
use vstd::prelude::*;

use rayon::ThreadPool;

use crate::codec::{
    benchmark_encode_jpeg_plain, buffer_from_decoded, encode_cache_jpeg, encode_jpeg,
    encode_jpeg_on_current_pool, encode_jpeg_with_pool, encoded_rgba, validate_jpeg_input,
    DecodedRgba,
};

use crate::jpeg_restart::segments::{lemma_takes, takes};
use crate::text::decimal;
use crate::types::{lemma_alpha_by_pixel, PixelBuf};

verus! {

/// What the decoder returned is kept: its error, or its pixels with their dimensions.
/// The buffer counts as opaque exactly where it has four bytes for every pixel and every
/// fourth one is at its maximum.
pub proof fn law_decoded_pictures_are_kept(
    decoded: Result<DecodedRgba, String>,
    buf: Result<PixelBuf, String>,
)
    requires
        call_ensures(buffer_from_decoded, (decoded,), buf),
    ensures
        decoded matches Err(error) ==> (buf matches Err(text) && text@ == error@),
        decoded matches Ok(rgba) ==> {
            &&& rgba.dimensions is None ==> (buf matches Err(text) && text@ == "no dimensions"@)
            &&& rgba.dimensions matches Some((width, height)) ==> {
                let pixels = width * height;
                let whole = rgba.pixels@.len() == pixels * 4 && forall|p: int|
                    0 <= p < pixels ==> #[trigger] rgba.pixels@[4 * p + 3] == 255;
                width <= u32::MAX && height <= u32::MAX ==> (buf matches Ok(made) && made@.width
                    == width && made@.height == height && made@.rgba == rgba.pixels@ && (
                made@.opaque <==> whole))
            }
        },
{
    if let Ok(rgba) = decoded {
        if let Some((width, height)) = rgba.dimensions {
            if rgba.pixels@.len() == width * height * 4 {
                lemma_alpha_by_pixel(width * height, rgba.pixels@);
            }
        }
    }
}

/// A picture can be encoded exactly where the quality is between one and a hundred, both
/// dimensions are between one and 65535, and there are four bytes for every pixel. What
/// is wrong is named in that order.
pub proof fn law_only_whole_pictures_are_encoded(
    buf: &PixelBuf,
    quality: u8,
    checked: Result<(usize, usize, usize), String>,
)
    requires
        call_ensures(validate_jpeg_input, (buf, quality), checked),
    ensures
        ({
            let width = buf@.width as int;
            let height = buf@.height as int;
            let graded = 1 <= quality && quality <= 100;
            let sized = 1 <= width && width <= 65535 && 1 <= height && height <= 65535;
            let filled = buf@.rgba.len() == width * height * 4;
            &&& checked is Ok ==> graded && sized && filled
            &&& graded && sized && filled && width * height * 4 <= usize::MAX ==> checked is Ok
            &&& checked matches Ok((across, down, pitch)) ==> across == width && down == height
                && pitch == 4 * width
            &&& checked matches Err(text) ==> {
                &&& !graded ==> text@ == "JPEG quality "@ + decimal(quality as nat)
                    + " is outside 1..=100"@
                &&& graded && width > 65535 ==> text@ == "JPEG width "@ + decimal(width as nat)
                    + " exceeds 65535"@
                &&& graded && width <= 65535 && height > 65535 ==> text@ == "JPEG height "@
                    + decimal(height as nat) + " exceeds 65535"@
                &&& graded && !sized && width <= 65535 && height <= 65535 ==> text@
                    == "JPEG dimensions must be non-zero"@
                &&& graded && sized && width * height * 4 <= usize::MAX ==> text@
                    == "RGBA storage has "@ + decimal(buf@.rgba.len()) + " bytes; expected "@
                    + decimal((width * height * 4) as nat) + " for "@ + decimal(width as nat)
                    + "x"@ + decimal(height as nat)
                &&& graded && sized && width * height * 4 > usize::MAX ==> text@
                    == "JPEG buffer byte count overflowed"@
            }
        }),
{
}

/// A stream is made of all pixels of a picture, at the quality asked for, with a restart
/// marker after every row of blocks of eight pixels; the reference stream has none. The
/// pool makes no difference.
pub proof fn law_streams_are_made_of_the_whole_picture(
    buf: &PixelBuf,
    quality: u8,
    pool: &ThreadPool,
    processing: Option<&ThreadPool>,
    here: Result<Vec<u8>, String>,
    there: Result<Vec<u8>, String>,
    cached: Result<Vec<u8>, String>,
    plain: Result<Vec<u8>, String>,
    interval: int,
)
    requires
        call_ensures(encode_jpeg, (buf, quality), here),
        call_ensures(encode_jpeg_with_pool, (pool, buf, quality), there),
        call_ensures(encode_cache_jpeg, (processing, pool, buf, quality), cached),
        call_ensures(benchmark_encode_jpeg_plain, (buf, quality), plain),
        1 <= quality <= 100,
        1 <= buf@.width <= 65535,
        1 <= buf@.height <= 65535,
        buf@.rgba.len() == buf@.width * buf@.height * 4,
        buf@.rgba.len() <= usize::MAX,
        takes(interval, 8, buf@.width as int),
    ensures
        ({
            let width = buf@.width as int;
            let height = buf@.height as int;
            let stream = encoded_rgba(buf@.rgba, width, height, quality as int, interval);
            let bare = encoded_rgba(buf@.rgba, width, height, quality as int, 0);
            &&& here matches Ok(bytes) && bytes@ == stream
            &&& there matches Ok(bytes) && bytes@ == stream
            &&& cached matches Ok(bytes) && bytes@ == stream
            &&& plain matches Ok(bytes) && bytes@ == bare
        }),
{
    lemma_takes(buf@.width as int, 8, interval);
}

/// A stream made without a look at the input is the same one, with a quality out of
/// range taken as the nearest one in it. A picture without pixels, too large, or with too
/// few bytes has none.
pub proof fn law_unchecked_streams_are_the_same(
    buf: &PixelBuf,
    quality: u8,
    threads: u32,
    encoded: Result<Vec<u8>, String>,
    interval: int,
)
    requires
        call_ensures(encode_jpeg_on_current_pool, (buf, quality, threads), encoded),
        takes(interval, 8, buf@.width as int),
    ensures
        ({
            let width = buf@.width as int;
            let height = buf@.height as int;
            let nearest = if quality == 0 {
                1int
            } else if quality >= 100 {
                100int
            } else {
                quality as int
            };
            let possible = 1 <= width && width <= 65535 && 1 <= height && height <= 65535 && width
                * height * 4 <= buf@.rgba.len();
            &&& encoded matches Ok(bytes) ==> possible && bytes@ == encoded_rgba(
                buf@.rgba,
                width,
                height,
                nearest,
                interval,
            )
            &&& possible && threads <= 1 ==> encoded is Ok
        }),
{
    if buf@.width > 0 {
        lemma_takes(buf@.width as int, 8, interval);
    }
}

} // verus!
