//! Downscaling and orientation rotation of pixel buffers.

use rayon::iter::{IntoParallelRefIterator, ParallelIterator};
use vstd::arithmetic::div_mod::{
    lemma_fundamental_div_mod, lemma_fundamental_div_mod_converse,
};
use vstd::prelude::*;

use crate::text::append_bytes;
use crate::types::{packed, packed_opaque, Orient, PixelBuf, PixelModel};

verus! {

// ---------------------------------------------------------------------------
// Orientation
// ---------------------------------------------------------------------------

/// Where pixel number `p` of the turned image comes from, in an image of the
/// given dimensions that stores `count` pixels.
///
/// A quarter turn clockwise takes `(x, y)` to `(height - 1 - y, x)`; one counter-
/// clockwise takes it to `(y, width - 1 - x)`.
pub open spec fn source_of(
    orient: Orient,
    width: int,
    height: int,
    count: int,
    p: int,
) -> int {
    match orient {
        Orient::R0 => p,
        Orient::R180 => count - 1 - p,
        Orient::R90 => (height - 1 - p % height) * width + p / height,
        Orient::R270 => p % height * width + (width - 1 - p / height),
    }
}

/// The bytes of the turned image, four to a pixel.
pub open spec fn turned(orient: Orient, width: int, height: int, rgba: Seq<u8>) -> Seq<u8> {
    let count = rgba.len() as int / 4;
    Seq::new(rgba.len(), |b: int| rgba[source_of(orient, width, height, count, b / 4) * 4 + b % 4])
}

/// A buffer in display orientation. Its pixels keep what is known of their
/// alpha; quarter turns exchange the dimensions.
pub open spec fn oriented(buf: PixelModel, orient: Orient) -> PixelModel {
    PixelModel {
        width: if orient.swaps() {
            buf.height
        } else {
            buf.width
        },
        height: if orient.swaps() {
            buf.width
        } else {
            buf.height
        },
        rgba: turned(orient, buf.width as int, buf.height as int, buf.rgba),
        opaque: buf.opaque,
    }
}

proof fn lemma_split(p: int, d: int, q: int, r: int)
    requires
        0 <= r < d,
        p == q * d + r,
    ensures
        p / d == q,
        p % d == r,
{
    lemma_fundamental_div_mod_converse(p, d, q, r);
}

/// A turn takes every pixel from within the image.
pub proof fn lemma_source_in_image(orient: Orient, width: int, height: int, p: int)
    requires
        0 < width,
        0 < height,
        0 <= p < width * height,
    ensures
        0 <= source_of(orient, width, height, width * height, p) < width * height,
{
    lemma_fundamental_div_mod(p, height);
    let x = p % height;
    let y = p / height;
    assert(0 <= y < width) by (nonlinear_arith)
        requires
            p == height * y + x,
            0 <= x < height,
            0 <= p < width * height,
    ;
    assert(0 <= (height - 1 - x) * width + y < width * height) by (nonlinear_arith)
        requires
            0 <= x < height,
            0 <= y < width,
    ;
    assert(0 <= x * width + (width - 1 - y) < width * height) by (nonlinear_arith)
        requires
            0 <= x < height,
            0 <= y < width,
    ;
}

/// Pixel rows turned together.
pub const BAND_ROWS: usize = 16;

/// Pixels from which on a turn is split over the thread pool.
pub const PARALLEL_PIXELS: usize = 65_536;

/// Rows `first..first + rows` of a quarter turn.
fn rotate_band(
    rgba: &Vec<u8>,
    width: usize,
    height: usize,
    clockwise: bool,
    first: usize,
    rows: usize,
) -> (band: Vec<u8>)
    requires
        0 < width,
        0 < height,
        rgba@.len() == width * height * 4,
        first + rows <= width,
    ensures
        ({
            let orient = if clockwise {
                Orient::R90
            } else {
                Orient::R270
            };
            band@ == turned(orient, width as int, height as int, rgba@).subrange(
                first * height * 4,
                (first + rows) * height * 4,
            )
        }),
{
    let ghost orient = if clockwise {
        Orient::R90
    } else {
        Orient::R270
    };
    let ghost w = width as int;
    let ghost h = height as int;
    let ghost whole = turned(orient, w, h, rgba@);
    let ghost start = first * h * 4;
    let total: usize = rgba.len();
    let mut band: Vec<u8> = Vec::new();
    let mut y: usize = first;
    proof {
        assert(0 <= start <= w * h * 4) by (nonlinear_arith)
            requires
                start == first * h * 4,
                0 <= first <= w,
                0 < h,
        ;
        assert(band@ =~= whole.subrange(start, start));
    }
    while y < first + rows
        invariant
            w == width,
            h == height,
            0 < w,
            0 < h,
            total == rgba@.len(),
            rgba@.len() == w * h * 4,
            first <= y <= first + rows <= w,
            start == first * h * 4,
            0 <= start,
            orient == if clockwise {
                Orient::R90
            } else {
                Orient::R270
            },
            whole == turned(orient, w, h, rgba@),
            start <= y * h * 4 <= whole.len(),
            band@ == whole.subrange(start, y * h * 4),
        decreases first + rows - y,
    {
        let mut x: usize = 0;
        while x < height
            invariant
                w == width,
                h == height,
                0 < w,
                0 < h,
                total == rgba@.len(),
                rgba@.len() == w * h * 4,
                first <= y < w,
                x <= h,
                start == first * h * 4,
                0 <= start,
                orient == if clockwise {
                    Orient::R90
                } else {
                    Orient::R270
                },
                whole == turned(orient, w, h, rgba@),
                start <= (y * h + x) * 4 <= whole.len(),
                band@ == whole.subrange(start, (y * h + x) * 4),
            decreases h - x,
        {
            let ghost p = y * h + x;
            proof {
                lemma_split(p, h, y as int, x as int);
                assert(p < w * h) by (nonlinear_arith)
                    requires
                        p == y * h + x,
                        0 <= y < w,
                        0 <= x < h,
                ;
                lemma_source_in_image(orient, w, h, p);
                assert(x * w <= w * h && (h - 1 - x) * w <= w * h && 0 <= x * w && 0 <= (h - 1 - x)
                    * w) by (nonlinear_arith)
                    requires
                        0 <= x < h,
                        0 < w,
                ;
            }
            let source: usize = if clockwise {
                (height - 1 - x) * width + y
            } else {
                x * width + (width - 1 - y)
            };
            assert(source == source_of(orient, w, h, w * h, p));
            assert(rgba@.len() as int / 4 == w * h);
            let at: usize = source * 4;
            let ghost before = band@;
            band.push(rgba[at]);
            band.push(rgba[at + 1]);
            band.push(rgba[at + 2]);
            band.push(rgba[at + 3]);
            x += 1;
            proof {
                assert((y * h + x) * 4 == p * 4 + 4);
                assert(band@ =~= whole.subrange(start, (y * h + x) * 4));
            }
        }
        y += 1;
        assert((y - 1) * h + h == y * h) by (nonlinear_arith);
        assert(y * h * 4 <= w * h * 4) by (nonlinear_arith)
            requires
                y <= w,
                0 < h,
        ;
    }
    band
}

/// One of the bands into which a quarter turn is split.
fn rotate_band_number(
    rgba: &Vec<u8>,
    width: usize,
    height: usize,
    clockwise: bool,
    band: usize,
) -> (rows: Vec<u8>)
    requires
        0 < width,
        0 < height,
        rgba@.len() == width * height * 4,
        band * BAND_ROWS < width,
    ensures
        ({
            let orient = if clockwise {
                Orient::R90
            } else {
                Orient::R270
            };
            let end = if (band + 1) * BAND_ROWS < width {
                (band + 1) * BAND_ROWS
            } else {
                width as int
            };
            rows@ == turned(orient, width as int, height as int, rgba@).subrange(
                band * BAND_ROWS * height * 4,
                end * height * 4,
            )
        }),
{
    let first: usize = band * BAND_ROWS;
    let rows: usize = if width - first < BAND_ROWS {
        width - first
    } else {
        BAND_ROWS
    };
    rotate_band(rgba, width, height, clockwise, first, rows)
}

/// Wraps rayon's `par_iter`, `map` and `collect` over a slice of band numbers.
/// Every output is what [`rotate_band_number`] returned for the band at its
/// position.
#[verifier::external_body]
fn rotate_bands(
    rgba: &Vec<u8>,
    width: usize,
    height: usize,
    clockwise: bool,
    bands: &Vec<usize>,
) -> (parts: Vec<Vec<u8>>)
    requires
        forall|i: int|
            0 <= i < bands@.len() ==> call_requires(
                rotate_band_number,
                (rgba, width, height, clockwise, #[trigger] bands@[i]),
            ),
    ensures
        parts@.len() == bands@.len(),
        forall|i: int|
            0 <= i < parts@.len() ==> call_ensures(
                rotate_band_number,
                (rgba, width, height, clockwise, bands@[i]),
                #[trigger] parts@[i],
            ),
{
    bands
        .par_iter()
        .map(|band| rotate_band_number(rgba, width, height, clockwise, *band))
        .collect()
}

/// Turns an image by a quarter on the thread pool, band by band.
fn rotate_parallel(rgba: &Vec<u8>, width: usize, height: usize, clockwise: bool) -> (out: Vec<u8>)
    requires
        0 < width,
        0 < height,
        rgba@.len() == width * height * 4,
        width + BAND_ROWS <= usize::MAX,
    ensures
        ({
            let orient = if clockwise {
                Orient::R90
            } else {
                Orient::R270
            };
            out@ == turned(orient, width as int, height as int, rgba@)
        }),
{
    let ghost orient = if clockwise {
        Orient::R90
    } else {
        Orient::R270
    };
    let ghost whole = turned(orient, width as int, height as int, rgba@);
    let ghost h = height as int;
    let mut bands: Vec<usize> = Vec::new();
    let mut next: usize = 0;
    while next < (width + (BAND_ROWS - 1)) / BAND_ROWS
        invariant
            width + BAND_ROWS <= usize::MAX,
            next <= (width + (BAND_ROWS - 1)) / BAND_ROWS as int,
            bands@.len() == next,
            forall|i: int| 0 <= i < next ==> (#[trigger] bands@[i]) == i,
        decreases (width + (BAND_ROWS - 1)) / BAND_ROWS as int - next,
    {
        bands.push(next);
        next += 1;
    }
    proof {
        assert forall|i: int| 0 <= i < bands@.len() implies call_requires(
            rotate_band_number,
            (rgba, width, height, clockwise, #[trigger] bands@[i]),
        ) by {
            assert(bands@[i] * BAND_ROWS < width);
        }
    }
    let parts = rotate_bands(rgba, width, height, clockwise, &bands);
    let mut out: Vec<u8> = Vec::new();
    let mut i: usize = 0;
    let ghost mut done: int = 0;
    assert(out@ =~= whole.subrange(0, 0));
    while i < parts.len()
        invariant
            0 < width,
            h == height,
            0 < h,
            rgba@.len() == width * h * 4,
            whole == turned(orient, width as int, h, rgba@),
            orient == if clockwise {
                Orient::R90
            } else {
                Orient::R270
            },
            i <= parts@.len(),
            parts@.len() == bands@.len(),
            bands@.len() == (width + (BAND_ROWS - 1)) / BAND_ROWS as int,
            forall|k: int| 0 <= k < bands@.len() ==> (#[trigger] bands@[k]) == k,
            forall|k: int|
                0 <= k < parts@.len() ==> call_ensures(
                    rotate_band_number,
                    (rgba, width, height, clockwise, bands@[k]),
                    #[trigger] parts@[k],
                ),
            done == if i * BAND_ROWS < width {
                i * BAND_ROWS
            } else {
                width as int
            },
            0 <= done * h * 4 <= whole.len(),
            out@ == whole.subrange(0, done * h * 4),
        decreases parts@.len() - i,
    {
        let ghost before = out@;
        assert(call_ensures(
            rotate_band_number,
            (rgba, width, height, clockwise, bands@[i as int]),
            parts@[i as int],
        ));
        append_bytes(&mut out, parts[i].as_slice());
        proof {
            let end = if (i + 1) * BAND_ROWS < width {
                (i + 1) * BAND_ROWS
            } else {
                width as int
            };
            assert(done == i * BAND_ROWS);
            assert(0 <= done * h * 4 <= end * h * 4 <= width * h * 4) by (nonlinear_arith)
                requires
                    0 <= done <= end <= width,
                    0 < h,
            ;
            assert(before + whole.subrange(done * h * 4, end * h * 4) =~= whole.subrange(
                0,
                end * h * 4,
            ));
            done = end;
        }
        i += 1;
    }
    assert(whole.subrange(0, width * h * 4) =~= whole);
    out
}

/// Reverses the pixels of an image.
fn reverse_pixels(rgba: &Vec<u8>) -> (out: Vec<u8>)
    requires
        rgba@.len() % 4 == 0,
    ensures
        out@ == Seq::new(
            rgba@.len(),
            |b: int| rgba@[(rgba@.len() / 4 - 1 - b / 4) * 4 + b % 4],
        ),
{
    let len: usize = rgba.len();
    let mut out: Vec<u8> = Vec::new();
    let mut p: usize = 0;
    let ghost expected = Seq::new(
        rgba@.len(),
        |b: int| rgba@[(rgba@.len() / 4 - 1 - b / 4) * 4 + b % 4],
    );
    while p < len / 4
        invariant
            len == rgba@.len(),
            len % 4 == 0,
            p <= len / 4,
            expected == Seq::new(
                rgba@.len(),
                |b: int| rgba@[(rgba@.len() / 4 - 1 - b / 4) * 4 + b % 4],
            ),
            out@ == expected.take(p * 4),
        decreases len / 4 - p,
    {
        let at: usize = (len / 4 - 1 - p) * 4;
        out.push(rgba[at]);
        out.push(rgba[at + 1]);
        out.push(rgba[at + 2]);
        out.push(rgba[at + 3]);
        p += 1;
        assert(out@ =~= expected.take(p * 4));
    }
    assert(out@ =~= expected);
    out
}

proof fn lemma_turned_alpha(orient: Orient, model: PixelModel)
    requires
        packed_opaque(model.width, model.height, model.rgba),
    ensures
        packed_opaque(
            oriented(model, orient).width,
            oriented(model, orient).height,
            oriented(model, orient).rgba,
        ),
{
    let w = model.width as int;
    let h = model.height as int;
    let out = oriented(model, orient).rgba;
    assert(w * h * 4 == h * w * 4) by (nonlinear_arith);
    assert forall|b: int| 0 <= b < out.len() && b % 4 == 3 implies #[trigger] out[b] == 255 by {
        assert(0 < w && 0 < h) by (nonlinear_arith)
            requires
                w * h * 4 > 0,
                0 <= w,
                0 <= h,
        ;
        assert(model.rgba.len() as int / 4 == w * h);
        lemma_source_in_image(orient, w, h, b / 4);
        let s = source_of(orient, w, h, w * h, b / 4);
        assert((s * 4 + 3) % 4 == 3);
        assert(out[b] == model.rgba[s * 4 + 3]);
    }
}

/// Rotates a buffer to display orientation, consuming its allocation.
///
/// [`Orient::R0`] is allocation-free. Quarter turns exchange dimensions.
/// Callers must preserve the storage invariant of [`PixelBuf`]: a half turn
/// needs whole pixels, and a quarter turn needs tightly packed storage.
pub fn apply_orient(buf: PixelBuf, orient: Orient) -> (out: PixelBuf)
    requires
        buf.wf(),
        orient == Orient::R180 ==> buf@.rgba.len() % 4 == 0,
        orient.swaps() ==> packed(buf@.width, buf@.height, buf@.rgba),
    ensures
        out.wf(),
        out@ == oriented(buf@, orient),
{
    broadcast use PixelBuf::view_fields;

    let ghost model = buf@;
    match orient {
        Orient::R0 => {
            assert(oriented(model, orient).rgba =~= model.rgba);
            buf
        },
        Orient::R180 => {
            let width: u32 = buf.width;
            let height: u32 = buf.height;
            let (rgba, alpha) = buf.into_parts();
            let out = reverse_pixels(&rgba);
            proof {
                assert(out@ =~= oriented(model, orient).rgba);
                if model.opaque {
                    lemma_turned_alpha(orient, model);
                }
            }
            PixelBuf::from_parts(width, height, out, alpha)
        },
        Orient::R90 | Orient::R270 => {
            let width: u32 = buf.width;
            let height: u32 = buf.height;
            let (rgba, alpha) = buf.into_parts();
            proof {
                if model.opaque {
                    lemma_turned_alpha(orient, model);
                }
            }
            if width == 0 || height == 0 {
                proof {
                    assert(model.width * model.height * 4 == 0) by (nonlinear_arith)
                        requires
                            model.width == 0 || model.height == 0,
                    ;
                    assert(rgba@ =~= oriented(model, orient).rgba);
                }
                return PixelBuf::from_parts(height, width, rgba, alpha);
            }
            let clockwise: bool = match orient {
                Orient::R90 => true,
                _ => false,
            };
            let large: bool = rgba.len() / 4 >= PARALLEL_PIXELS && width as usize <= usize::MAX
                - BAND_ROWS;
            let out = if large {
                rotate_parallel(&rgba, width as usize, height as usize, clockwise)
            } else {
                rotate_band(&rgba, width as usize, height as usize, clockwise, 0, width as usize)
            };
            assert(out@ =~= oriented(model, orient).rgba);
            PixelBuf::from_parts(height, width, out, alpha)
        },
    }
}

proof fn lemma_inverse_source(width: int, height: int, p: int)
    requires
        0 < width,
        0 < height,
        0 <= p < width * height,
    ensures
        ({
            let n = width * height;
            let back = source_of(Orient::R270, height, width, n, p);
            let again = source_of(Orient::R90, height, width, n, p);
            &&& 0 <= back < n
            &&& 0 <= again < n
            &&& source_of(Orient::R90, width, height, n, back) == p
            &&& source_of(Orient::R90, width, height, n, again) == source_of(
                Orient::R180,
                width,
                height,
                n,
                p,
            )
        }),
{
    let n = width * height;
    assert(height * width == n) by (nonlinear_arith)
        requires
            n == width * height,
    ;
    lemma_source_in_image(Orient::R270, height, width, p);
    lemma_source_in_image(Orient::R90, height, width, p);
    lemma_fundamental_div_mod(p, width);
    let x = p % width;
    let y = p / width;
    assert(0 <= y < height) by (nonlinear_arith)
        requires
            p == width * y + x,
            0 <= x < width,
            0 <= p < width * height,
    ;
    let back = source_of(Orient::R270, height, width, n, p);
    assert(back == x * height + (height - 1 - y));
    lemma_split(back, height, x, height - 1 - y);
    assert(source_of(Orient::R90, width, height, n, back) == (height - 1 - (height - 1 - y)) * width
        + x);
    assert((height - 1 - (height - 1 - y)) * width == width * y) by (nonlinear_arith);
    let again = source_of(Orient::R90, height, width, n, p);
    assert(again == (width - 1 - x) * height + y);
    lemma_split(again, height, width - 1 - x, y);
    assert(source_of(Orient::R90, width, height, n, again) == (height - 1 - y) * width + (width - 1
        - x));
    assert((height - 1 - y) * width + (width - 1 - x) == width * height - 1 - (width * y + x))
        by (nonlinear_arith);
}

/// A quarter turn and its inverse restore every pixel.
pub proof fn law_inverse_turns_restore_the_image(buf: PixelModel)
    requires
        packed(buf.width, buf.height, buf.rgba),
    ensures
        oriented(oriented(buf, Orient::R90), Orient::R270) == buf,
{
    let w = buf.width as int;
    let h = buf.height as int;
    let once = oriented(buf, Orient::R90);
    let twice = oriented(once, Orient::R270);
    assert forall|b: int| 0 <= b < buf.rgba.len() implies twice.rgba[b] == buf.rgba[b] by {
        assert(0 < w && 0 < h) by (nonlinear_arith)
            requires
                w * h * 4 > 0,
                0 <= w,
                0 <= h,
        ;
        assert(buf.rgba.len() as int / 4 == w * h);
        lemma_inverse_source(w, h, b / 4);
        let q = source_of(Orient::R270, h, w, w * h, b / 4);
        let at = q * 4 + b % 4;
        assert(at / 4 == q && at % 4 == b % 4);
        assert(twice.rgba[b] == once.rgba[at]);
    }
    assert(twice.rgba =~= buf.rgba);
}

/// Two quarter turns are a half turn.
pub proof fn law_two_quarter_turns_are_a_half_turn(buf: PixelModel)
    requires
        packed(buf.width, buf.height, buf.rgba),
    ensures
        oriented(oriented(buf, Orient::R90), Orient::R90) == oriented(buf, Orient::R180),
{
    let w = buf.width as int;
    let h = buf.height as int;
    let once = oriented(buf, Orient::R90);
    let twice = oriented(once, Orient::R90);
    let half = oriented(buf, Orient::R180);
    assert forall|b: int| 0 <= b < buf.rgba.len() implies twice.rgba[b] == half.rgba[b] by {
        assert(0 < w && 0 < h) by (nonlinear_arith)
            requires
                w * h * 4 > 0,
                0 <= w,
                0 <= h,
        ;
        assert(buf.rgba.len() as int / 4 == w * h);
        lemma_inverse_source(w, h, b / 4);
        let q = source_of(Orient::R90, h, w, w * h, b / 4);
        let at = q * 4 + b % 4;
        assert(at / 4 == q && at % 4 == b % 4);
        assert(twice.rgba[b] == once.rgba[at]);
    }
    assert(twice.rgba =~= half.rgba);
}

/// Two half turns restore every pixel.
pub proof fn law_two_half_turns_restore_the_image(buf: PixelModel)
    requires
        buf.rgba.len() % 4 == 0,
    ensures
        oriented(oriented(buf, Orient::R180), Orient::R180) == buf,
{
    let once = oriented(buf, Orient::R180);
    let twice = oriented(once, Orient::R180);
    let n = buf.rgba.len() as int / 4;
    assert forall|b: int| 0 <= b < buf.rgba.len() implies twice.rgba[b] == buf.rgba[b] by {
        let q = n - 1 - b / 4;
        let at = q * 4 + b % 4;
        assert(at / 4 == q && at % 4 == b % 4);
        assert(twice.rgba[b] == once.rgba[at]);
    }
    assert(twice.rgba =~= buf.rgba);
}

/// Four quarter turns restore every pixel.
pub proof fn law_full_turn_restores_the_image(buf: PixelModel)
    requires
        packed(buf.width, buf.height, buf.rgba),
    ensures
        oriented(
            oriented(oriented(oriented(buf, Orient::R90), Orient::R90), Orient::R90),
            Orient::R90,
        ) == buf,
{
    let half = oriented(buf, Orient::R180);
    law_two_quarter_turns_are_a_half_turn(buf);
    law_two_quarter_turns_are_a_half_turn(half);
    law_two_half_turns_restore_the_image(buf);
}

// ---------------------------------------------------------------------------
// Resizing
// ---------------------------------------------------------------------------

/// Failure while constructing or resizing an RGBA image.
#[derive(Debug)]
pub enum ResizeError {
    /// The dimensions, the storage, or the resize was rejected.
    Fir(String),
}

impl ResizeError {
    /// The text of the error.
    pub fn message(&self) -> (text: String)
        ensures
            text@ == match *self {
                ResizeError::Fir(reason) => "resize: "@ + reason@,
            },
    {
        match self {
            ResizeError::Fir(reason) => {
                let mut text = String::from_str("resize: ");
                text.append(reason.as_str());
                text
            },
        }
    }
}

/// Whether resizing an image can give some pixels. Which of several results
/// comes may depend on the vector instructions of the machine.
pub uninterp spec fn may_resize(
    rgba: Seq<u8>,
    width: int,
    height: int,
    new_width: int,
    new_height: int,
    resized: Seq<u8>,
) -> bool;

/// Wraps `fast_image_resize::Resizer::resize` of RGBA8 images with a Catmull-Rom
/// filter that does not interpret alpha. The source storage must hold at least
/// four bytes per pixel, and that is the only thing that can go wrong; the result
/// is tightly packed. Which pixels come is left unsaid: the resizer picks its
/// kernels by the machine it runs on.
#[verifier::external_body]
fn fir_resize(
    rgba: Vec<u8>,
    width: u32,
    height: u32,
    new_width: u32,
    new_height: u32,
) -> (resized: Result<Vec<u8>, String>)
    requires
        width * height * 4 <= usize::MAX,
        new_width * new_height * 4 <= isize::MAX,
    ensures
        match resized {
            Ok(pixels) => rgba@.len() >= width * height * 4 && pixels@.len() == new_width
                * new_height * 4 && may_resize(
                rgba@,
                width as int,
                height as int,
                new_width as int,
                new_height as int,
                pixels@,
            ),
            Err(_) => rgba@.len() < width * height * 4,
        },
{
    let pixel = fast_image_resize::PixelType::U8x4;
    let filter = fast_image_resize::FilterType::CatmullRom;
    let options = fast_image_resize::ResizeOptions::new()
        .resize_alg(fast_image_resize::ResizeAlg::Convolution(filter))
        .use_alpha(false);
    let source = fast_image_resize::images::Image::from_vec_u8(width, height, rgba, pixel)
        .map_err(|error| error.to_string())?;
    let mut target = fast_image_resize::images::Image::new(new_width, new_height, pixel);
    fast_image_resize::Resizer::new()
        .resize(&source, &mut target, &options)
        .map_err(|error| error.to_string())?;
    Ok(target.into_vec())
}

/// Whether a resize has the given outcome: an error exactly where the storage
/// does not match the dimensions.
pub open spec fn is_resized(
    buf: PixelModel,
    width: u32,
    height: u32,
    outcome: Result<PixelBuf, ResizeError>,
) -> bool {
    match outcome {
        Ok(out) => packed(buf.width, buf.height, buf.rgba) && out.wf() && out@.width == width
            && out@.height == height && packed(width as nat, height as nat, out@.rgba)
            && out@.opaque == packed_opaque(width as nat, height as nat, out@.rgba) && may_resize(
            buf.rgba,
            buf.width as int,
            buf.height as int,
            width as int,
            height as int,
            out@.rgba,
        ),
        Err(_) => !packed(buf.width, buf.height, buf.rgba),
    }
}

/// Resizes an RGBA8 buffer to exact dimensions with a Catmull-Rom filter.
///
/// Alpha is not interpreted during filtering because pipeline images are opaque.
/// The input allocation is consumed and the output remains tightly packed RGBA8.
///
/// # Errors
///
/// Returns [`ResizeError::Fir`] when the source storage does not match its
/// dimensions.
pub fn resize_exact(buf: PixelBuf, dst_w: u32, dst_h: u32) -> (out: Result<PixelBuf, ResizeError>)
    requires
        buf@.width * buf@.height * 4 <= usize::MAX,
        dst_w * dst_h * 4 <= isize::MAX,
    ensures
        is_resized(buf@, dst_w, dst_h, out),
{
    broadcast use PixelBuf::view_fields;

    let width: u32 = buf.width;
    let height: u32 = buf.height;
    assert(width as u128 * height as u128 <= 0xFFFF_FFFF * 0xFFFF_FFFF) by (nonlinear_arith)
        requires
            width <= 0xFFFF_FFFF,
            height <= 0xFFFF_FFFF,
    ;
    let expected: u128 = width as u128 * height as u128 * 4;
    if buf.byte_len() as u128 > expected {
        return Err(ResizeError::Fir(String::from_str("Size of buffer is larger than required")));
    }
    match fir_resize(buf.into_rgba(), width, height, dst_w, dst_h) {
        Ok(rgba) => Ok(PixelBuf::new_scanned(dst_w, dst_h, rgba)),
        Err(error) => Err(ResizeError::Fir(error)),
    }
}

/// The larger edge of an image.
pub open spec fn long_edge(buf: PixelModel) -> nat {
    if buf.width < buf.height {
        buf.height
    } else {
        buf.width
    }
}

/// An edge of at least one pixel.
pub open spec fn at_least_one(edge: u32) -> u32 {
    if edge == 0 {
        1
    } else {
        edge
    }
}

fn nonzero(edge: u32) -> (kept: u32)
    ensures
        kept == at_least_one(edge),
{
    if edge == 0 {
        1
    } else {
        edge
    }
}

/// Downscale so the long edge is at most `max_edge`. Returns the input unchanged
/// if it already fits; the no-op path does not validate that RGBA storage
/// matches the dimensions. `fitted` are the rounded dimensions that preserve the
/// aspect; an edge never vanishes.
///
/// # Errors
///
/// When resizing is required, returns [`ResizeError::Fir`] if source RGBA
/// storage is malformed.
pub fn downscale_to_fit(buf: PixelBuf, max_edge: u32, fitted: (u32, u32)) -> (out: Result<
    PixelBuf,
    ResizeError,
>)
    requires
        buf@.width * buf@.height * 4 <= usize::MAX,
        at_least_one(fitted.0) * at_least_one(fitted.1) * 4 <= isize::MAX,
    ensures
        if long_edge(buf@) <= max_edge {
            out matches Ok(same) && same@ == buf@
        } else {
            is_resized(buf@, at_least_one(fitted.0), at_least_one(fitted.1), out)
        },
{
    broadcast use PixelBuf::view_fields;

    let long: u32 = if buf.width < buf.height {
        buf.height
    } else {
        buf.width
    };
    if long <= max_edge {
        return Ok(buf);
    }
    resize_exact(buf, nonzero(fitted.0), nonzero(fitted.1))
}

// ---------------------------------------------------------------------------
// Coordinates
// ---------------------------------------------------------------------------

proof fn lemma_turned_pixel(
    orient: Orient,
    width: int,
    height: int,
    rgba: Seq<u8>,
    x: int,
    y: int,
    c: int,
)
    requires
        0 <= x < width,
        0 <= y < height,
        0 <= c < 4,
        rgba.len() == width * height * 4,
    ensures
        ({
            let out = turned(orient, width, height, rgba);
            let from = rgba[(y * width + x) * 4 + c];
            &&& out.len() == rgba.len()
            &&& orient == Orient::R0 ==> out[(y * width + x) * 4 + c] == from
            &&& orient == Orient::R90 ==> out[(x * height + (height - 1 - y)) * 4 + c] == from
            &&& orient == Orient::R180 ==> out[((height - 1 - y) * width + (width - 1 - x)) * 4 + c]
                == from
            &&& orient == Orient::R270 ==> out[((width - 1 - x) * height + y) * 4 + c] == from
        }),
{
    let out = turned(orient, width, height, rgba);
    let n = width * height;
    let p = match orient {
        Orient::R0 => y * width + x,
        Orient::R90 => x * height + (height - 1 - y),
        Orient::R180 => (height - 1 - y) * width + (width - 1 - x),
        Orient::R270 => (width - 1 - x) * height + y,
    };
    assert(0 <= y * width + x < n && 0 <= p < n) by (nonlinear_arith)
        requires
            0 <= x < width,
            0 <= y < height,
            n == width * height,
            p == y * width + x || p == x * height + (height - 1 - y) || p == (height - 1 - y) * width
                + (width - 1 - x) || p == (width - 1 - x) * height + y,
    ;
    let b = p * 4 + c;
    assert(b / 4 == p && b % 4 == c);
    assert(rgba.len() as int / 4 == n);
    lemma_split(x * height + (height - 1 - y), height, x, height - 1 - y);
    lemma_split((width - 1 - x) * height + y, height, width - 1 - x, y);
    assert((height - 1 - (height - 1 - y)) * width == y * width) by (nonlinear_arith);
    assert(n - 1 - ((height - 1 - y) * width + (width - 1 - x)) == y * width + x)
        by (nonlinear_arith)
        requires
            n == width * height,
    ;
    assert(source_of(orient, width, height, n, p) == y * width + x);
    assert(out[b] == rgba[(y * width + x) * 4 + c]);
}

/// Where every pixel of a tightly packed image goes, whatever its size. No turn
/// leaves `(x, y)` alone; a quarter turn clockwise takes it to column
/// `height - 1 - y` of row `x`, a half turn to the opposite corner, and a quarter
/// turn counterclockwise to column `y` of row `width - 1 - x`. All four bytes go
/// along, quarter turns exchange the dimensions, and what is known of the alpha
/// stays known.
pub proof fn law_turns_move_every_pixel(
    buf: PixelBuf,
    orient: Orient,
    out: PixelBuf,
    x: int,
    y: int,
    c: int,
)
    requires
        call_ensures(apply_orient, (buf, orient), out),
        buf@.rgba.len() == buf@.width * buf@.height * 4,
        0 <= x < buf@.width,
        0 <= y < buf@.height,
        0 <= c < 4,
    ensures
        ({
            let width = buf@.width as int;
            let height = buf@.height as int;
            let (column, row, columns, rows) = match orient {
                Orient::R0 => (x, y, width, height),
                Orient::R90 => (height - 1 - y, x, height, width),
                Orient::R180 => (width - 1 - x, height - 1 - y, width, height),
                Orient::R270 => (y, width - 1 - x, height, width),
            };
            &&& out@.width == columns
            &&& out@.height == rows
            &&& out@.rgba.len() == buf@.rgba.len()
            &&& out@.opaque == buf@.opaque
            &&& out@.rgba[(row * columns + column) * 4 + c] == buf@.rgba[(y * width + x) * 4 + c]
        }),
{
    lemma_turned_pixel(
        orient,
        buf@.width as int,
        buf@.height as int,
        buf@.rgba,
        x,
        y,
        c,
    );
}

/// A half turn of any storage made of whole pixels reverses the pixels and keeps
/// the dimensions; no turn keeps everything.
pub proof fn law_half_turn_reverses_the_pixels(
    buf: PixelBuf,
    none: PixelBuf,
    half: PixelBuf,
    p: int,
    c: int,
)
    requires
        call_ensures(apply_orient, (buf, Orient::R0), none),
        call_ensures(apply_orient, (buf, Orient::R180), half),
        buf@.rgba.len() % 4 == 0,
        0 <= p,
        p * 4 < buf@.rgba.len(),
        0 <= c < 4,
    ensures
        none@.width == buf@.width,
        none@.height == buf@.height,
        none@.rgba =~= buf@.rgba,
        half@.width == buf@.width,
        half@.height == buf@.height,
        half@.rgba.len() == buf@.rgba.len(),
        half@.rgba[buf@.rgba.len() - 4 - p * 4 + c] == buf@.rgba[p * 4 + c],
{
    let n = buf@.rgba.len() as int / 4;
    let b = buf@.rgba.len() - 4 - p * 4 + c;
    assert(b / 4 == n - 1 - p && b % 4 == c);
}

/// Where the EXIF orientation says the first stored row or column is seen, the
/// turned image shows it there. For the values 1 to 4 the first row is seen at the
/// top or, for 3 and 4, at the bottom; for 5 to 8 the first column is seen at the
/// top or, for 7 and 8, at the bottom. Any other value turns nothing.
pub proof fn law_exif_orientation_shows_the_image_upright(
    value: Option<u16>,
    orient: Orient,
    buf: PixelBuf,
    out: PixelBuf,
    k: int,
    c: int,
)
    requires
        call_ensures(Orient::from_exif, (value,), orient),
        call_ensures(apply_orient, (buf, orient), out),
        buf@.rgba.len() == buf@.width * buf@.height * 4,
        0 <= k,
        0 <= c < 4,
    ensures
        ({
            let width = buf@.width as int;
            let height = buf@.height as int;
            let v = match value {
                Some(v) => v as int,
                None => 0,
            };
            // A stored pixel of the first row, and one of the first column.
            let row = buf@.rgba[k * 4 + c];
            let column = buf@.rgba[k * width * 4 + c];
            &&& !(3 <= v <= 8) ==> out@.rgba =~= buf@.rgba && out@.width == width
                && out@.height == height
            &&& (v == 3 || v == 4) && k < width && 0 < height ==> out@.width == width && row
                == out@.rgba[((height - 1) * width + (width - 1 - k)) * 4 + c]
            &&& (v == 5 || v == 6) && k < height && 0 < width ==> out@.width == height && column
                == out@.rgba[(height - 1 - k) * 4 + c]
            &&& (v == 7 || v == 8) && k < height && 0 < width ==> out@.width == height && column
                == out@.rgba[((width - 1) * height + k) * 4 + c]
        }),
{
    let width = buf@.width as int;
    let height = buf@.height as int;
    if orient == Orient::R180 && k < width && 0 < height {
        lemma_turned_pixel(orient, width, height, buf@.rgba, k, 0, c);
    } else if orient.swaps() && k < height && 0 < width {
        lemma_turned_pixel(orient, width, height, buf@.rgba, 0, k, c);
        assert((0 * height + (height - 1 - k)) == height - 1 - k);
    }
}

/// An image whose edges both fit is left as it is. Any other one, where its
/// storage matches its dimensions, gets the fitted dimensions, with no edge below
/// one pixel, in storage that matches them; where it does not match, that is the
/// error.
pub proof fn law_only_large_images_are_downscaled(
    buf: PixelBuf,
    max_edge: u32,
    fitted: (u32, u32),
    out: Result<PixelBuf, ResizeError>,
)
    requires
        call_ensures(downscale_to_fit, (buf, max_edge, fitted), out),
    ensures
        buf@.width <= max_edge && buf@.height <= max_edge ==> (out matches Ok(same) && same@.width
            == buf@.width && same@.height == buf@.height && same@.rgba == buf@.rgba && same@.opaque
            == buf@.opaque),
        buf@.width > max_edge || buf@.height > max_edge ==> {
            &&& out is Ok <==> buf@.rgba.len() == buf@.width * buf@.height * 4
            &&& out matches Ok(made) ==> made@.width >= 1 && made@.height >= 1 && (fitted.0 >= 1
                ==> made@.width == fitted.0) && (fitted.1 >= 1 ==> made@.height == fitted.1) && (
            fitted.0 == 0 ==> made@.width == 1) && (fitted.1 == 0 ==> made@.height == 1)
                && made@.rgba.len() == made@.width * made@.height * 4 && may_resize(
                buf@.rgba,
                buf@.width as int,
                buf@.height as int,
                made@.width as int,
                made@.height as int,
                made@.rgba,
            ) && (made@.opaque <==> forall|i: int|
                0 <= i < made@.rgba.len() && i % 4 == 3 ==> #[trigger] made@.rgba[i] == 255)
        },
{
}

/// A resize gives the dimensions that were asked for, or fails because the
/// storage does not match the dimensions it claims.
pub proof fn law_resize_gives_the_requested_dimensions(
    buf: PixelBuf,
    width: u32,
    height: u32,
    out: Result<PixelBuf, ResizeError>,
)
    requires
        call_ensures(resize_exact, (buf, width, height), out),
    ensures
        out is Ok <==> buf@.rgba.len() == buf@.width * buf@.height * 4,
        out matches Ok(made) ==> made@.width == width && made@.height == height && made@.rgba.len()
            == width * height * 4 && may_resize(
            buf@.rgba,
            buf@.width as int,
            buf@.height as int,
            width as int,
            height as int,
            made@.rgba,
        ),
{
}

} // verus!
