//! Shared value types passed between decoding, caching, scheduling, and the UI.

use vstd::prelude::*;

use crate::text::{digits_value, law_decimal_digits_read_as_the_number, push_decimal};

verus! {

/// Cache/display tier of a rendered image.
#[derive(Debug, Clone, Copy, PartialEq, Eq, Structural, Hash, PartialOrd, Ord)]
pub enum Tier {
    /// Small filmstrip/grid thumbnail (from the embedded preview).
    Thumb,
    /// Half-res superpixel develop: real raw data, browse quality.
    Browse,
    /// Full-res PPG develop for 100% zoom.
    Full,
}

/// Display rotation derived from the EXIF orientation tag. Mirrored
/// variants collapse onto the nearest rotation (cameras don't mirror).
#[derive(Debug, Clone, Copy, PartialEq, Eq, Structural)]
pub enum Orient {
    /// No display rotation.
    R0,
    /// 90° clockwise.
    R90,
    /// 180° clockwise.
    R180,
    /// 270° clockwise.
    R270,
}

impl Default for Orient {
    fn default() -> (orient: Self)
        ensures
            orient == Orient::R0,
    {
        Orient::R0
    }
}

/// The display rotation of an EXIF orientation value.
pub open spec fn exif_orient(value: Option<u16>) -> Orient {
    match value {
        Some(v) => if v == 3 || v == 4 {
            Orient::R180
        } else if v == 5 || v == 6 {
            Orient::R90
        } else if v == 7 || v == 8 {
            Orient::R270
        } else {
            Orient::R0
        },
        None => Orient::R0,
    }
}

impl Orient {
    /// Converts an EXIF orientation value into the supported display rotation.
    ///
    /// Mirrored EXIF values (`2`, `4`, `5`, and `7`) intentionally collapse to
    /// their nearest rotation. Missing and unknown values are treated as
    /// [`R0`](Self::R0).
    pub fn from_exif(value: Option<u16>) -> (orient: Self)
        ensures
            orient == exif_orient(value),
    {
        match value {
            Some(3) | Some(4) => Self::R180,
            Some(5) | Some(6) => Self::R90,
            Some(7) | Some(8) => Self::R270,
            _ => Self::R0,
        }
    }

    /// Whether applying this orientation exchanges width and height.
    pub open spec fn swaps(self) -> bool {
        self == Orient::R90 || self == Orient::R270
    }

    /// Returns whether applying this orientation exchanges width and height.
    pub fn swaps_axes(self) -> (swaps: bool)
        ensures
            swaps == self.swaps(),
    {
        matches!(self, Self::R90 | Self::R270)
    }
}

/// What is known of the alpha bytes of a buffer.
#[derive(Debug, Clone, Copy, PartialEq, Eq, Structural)]
pub(crate) enum PixelAlpha {
    Unknown,
    Opaque,
}

/// A decoded, display-ready image: 8-bit sRGB, tightly packed RGBA.
///
/// The only pixel type that crosses thread boundaries. UI-side texture types
/// are constructed from this on the UI thread only.
///
/// Pixel storage is immutable outside this crate, which keeps the private
/// opaque-alpha provenance trustworthy after construction.
pub struct PixelBuf {
    /// Image width in pixels.
    pub width: u32,
    /// Image height in pixels.
    pub height: u32,
    /// Row-major RGBA bytes, with four bytes per pixel.
    pub(crate) rgba: Vec<u8>,
    pub(crate) alpha: PixelAlpha,
}

/// What a [`PixelBuf`] holds: dimensions, storage and alpha provenance.
pub struct PixelModel {
    pub width: nat,
    pub height: nat,
    pub rgba: Seq<u8>,
    pub opaque: bool,
}

/// Whether `rgba` stores `width * height` tightly packed RGBA pixels.
pub open spec fn packed(width: nat, height: nat, rgba: Seq<u8>) -> bool {
    rgba.len() == width * height * 4
}

/// Whether every fourth byte of `rgba`, the alpha byte of a pixel, is 255.
pub open spec fn alpha_all_max(rgba: Seq<u8>) -> bool {
    forall|i: int| 0 <= i < rgba.len() && i % 4 == 3 ==> #[trigger] rgba[i] == 255
}

/// Whether `rgba` is tightly packed and wholly opaque.
pub open spec fn packed_opaque(width: nat, height: nat, rgba: Seq<u8>) -> bool {
    packed(width, height, rgba) && alpha_all_max(rgba)
}

impl View for PixelBuf {
    type V = PixelModel;

    closed spec fn view(&self) -> PixelModel {
        PixelModel {
            width: self.width as nat,
            height: self.height as nat,
            rgba: self.rgba@,
            opaque: self.alpha == PixelAlpha::Opaque,
        }
    }
}

impl Clone for PixelBuf {
    fn clone(&self) -> (copy: Self)
        ensures
            copy@ == self@,
    {
        let rgba = self.rgba.clone();
        assert(rgba@ =~= self.rgba@);
        PixelBuf { width: self.width, height: self.height, rgba, alpha: self.alpha }
    }
}

/// The byte length of a tightly packed RGBA image, or `None` where it does not
/// fit in memory.
fn expected_len(width: u32, height: u32) -> (len: Option<usize>)
    ensures
        len matches Some(n) ==> n == width * height * 4,
        len is None ==> width * height * 4 > usize::MAX,
{
    let pixels: usize = match (width as usize).checked_mul(height as usize) {
        Some(pixels) => pixels,
        None => return None,
    };
    pixels.checked_mul(4)
}

fn alpha_is_max(rgba: &Vec<u8>) -> (all: bool)
    requires
        rgba@.len() % 4 == 0,
    ensures
        all == alpha_all_max(rgba@),
{
    let mut i: usize = 0;
    while i < rgba.len()
        invariant
            i <= rgba@.len(),
            i % 4 == 0,
            rgba@.len() % 4 == 0,
            forall|k: int| 0 <= k < i && k % 4 == 3 ==> #[trigger] rgba@[k] == 255,
        decreases rgba@.len() - i,
    {
        if rgba[i + 3] != u8::MAX {
            assert((i + 3) % 4 == 3);
            return false;
        }
        i += 4;
    }
    true
}

impl PixelBuf {
    /// Whether the alpha provenance of the buffer is backed by its storage.
    pub open spec fn wf(&self) -> bool {
        self@.opaque ==> packed_opaque(self@.width, self@.height, self@.rgba)
    }

    /// The view reads the fields as they are.
    pub(crate) broadcast proof fn view_fields(&self)
        ensures
            (#[trigger] self@).width == self.width,
            self@.height == self.height,
            self@.rgba == self.rgba@,
            self@.opaque == (self.alpha == PixelAlpha::Opaque),
    {
    }

    /// Creates a buffer whose alpha provenance is unknown.
    ///
    /// This constructor deliberately does not scan or validate storage.
    /// Texture conversion therefore uses the exact premultiplying fallback,
    /// and malformed storage is handled by each consumer's existing checks.
    pub fn new(width: u32, height: u32, rgba: Vec<u8>) -> (buf: Self)
        ensures
            buf@ == (PixelModel {
                width: width as nat,
                height: height as nat,
                rgba: rgba@,
                opaque: false,
            }),
            buf.wf(),
    {
        Self { width, height, rgba, alpha: PixelAlpha::Unknown }
    }

    /// Creates a known-opaque buffer after validating dimensions and alpha.
    ///
    /// This safe public entry point is intended for external producers.
    pub fn try_new_opaque(width: u32, height: u32, rgba: Vec<u8>) -> (made: Option<Self>)
        ensures
            made is Some <==> packed_opaque(width as nat, height as nat, rgba@),
            made matches Some(buf) ==> buf.wf() && buf@ == (PixelModel {
                width: width as nat,
                height: height as nat,
                rgba: rgba@,
                opaque: true,
            }),
    {
        let len: usize = rgba.len();
        let expected: usize = match expected_len(width, height) {
            Some(expected) => expected,
            None => return None,
        };
        if len != expected || !alpha_is_max(&rgba) {
            return None;
        }
        Some(Self::new_opaque(width, height, rgba))
    }

    /// Constructs storage whose producer proves it wrote opaque alpha.
    pub(crate) fn new_opaque(width: u32, height: u32, rgba: Vec<u8>) -> (buf: Self)
        requires
            packed_opaque(width as nat, height as nat, rgba@),
        ensures
            buf@ == (PixelModel {
                width: width as nat,
                height: height as nat,
                rgba: rgba@,
                opaque: true,
            }),
            buf.wf(),
    {
        Self { width, height, rgba, alpha: PixelAlpha::Opaque }
    }

    /// Classifies decoder output without losing malformed or translucent data.
    ///
    /// Some decoders accept truncated streams and return partially initialized
    /// RGBA storage. Those buffers must remain usable through the exact alpha
    /// fallback, while valid opaque output carries its proof to the UI.
    pub fn new_scanned(width: u32, height: u32, rgba: Vec<u8>) -> (buf: Self)
        ensures
            buf@ == (PixelModel {
                width: width as nat,
                height: height as nat,
                rgba: rgba@,
                opaque: packed_opaque(width as nat, height as nat, rgba@),
            }),
            buf.wf(),
    {
        let len: usize = rgba.len();
        let sized: bool = match expected_len(width, height) {
            Some(expected) => len == expected,
            None => false,
        };
        let alpha = if sized && alpha_is_max(&rgba) {
            PixelAlpha::Opaque
        } else {
            PixelAlpha::Unknown
        };
        Self { width, height, rgba, alpha }
    }

    /// Rebuilds a transformed buffer while retaining its alpha provenance.
    pub(crate) fn from_parts(width: u32, height: u32, rgba: Vec<u8>, alpha: PixelAlpha) -> (buf:
        Self)
        requires
            alpha == PixelAlpha::Opaque ==> packed_opaque(width as nat, height as nat, rgba@),
        ensures
            buf@ == (PixelModel {
                width: width as nat,
                height: height as nat,
                rgba: rgba@,
                opaque: alpha == PixelAlpha::Opaque,
            }),
            buf.wf(),
    {
        Self { width, height, rgba, alpha }
    }

    /// Borrows the tightly packed RGBA storage.
    pub fn rgba(&self) -> (bytes: &[u8])
        ensures
            bytes@ == self@.rgba,
    {
        self.rgba.as_slice()
    }

    /// Consumes the buffer without copying its pixel allocation.
    pub fn into_rgba(self) -> (bytes: Vec<u8>)
        ensures
            bytes@ == self@.rgba,
    {
        self.rgba
    }

    /// Consumes the buffer into storage plus its non-forgeable provenance.
    pub(crate) fn into_parts(self) -> (parts: (Vec<u8>, PixelAlpha))
        ensures
            parts.0@ == self@.rgba,
            (parts.1 == PixelAlpha::Opaque) == self@.opaque,
    {
        (self.rgba, self.alpha)
    }

    /// Returns whether a producer proved every alpha byte is 255.
    pub fn is_opaque(&self) -> (opaque: bool)
        ensures
            opaque == self@.opaque,
    {
        self.alpha == PixelAlpha::Opaque
    }

    /// Returns the resident byte length of the pixel storage.
    ///
    /// This reports the actual vector length; it does not recompute or validate
    /// the expected length from the dimensions.
    pub fn byte_len(&self) -> (len: usize)
        ensures
            len == self@.rgba.len(),
    {
        self.rgba.len()
    }

    /// Summarizes the buffer by its dimensions and byte length, never by its
    /// pixels.
    pub fn debug_text(&self) -> (text: String)
        ensures
            text@ == debug_chars(self@),
    {
        let mut text = String::from_str("PixelBuf { width: ");
        push_decimal(&mut text, self.width as u64);
        text.append(", height: ");
        push_decimal(&mut text, self.height as u64);
        text.append(", bytes: ");
        push_decimal(&mut text, self.rgba.len() as u64);
        text.append(" }");
        text
    }
}

/// The characters of [`PixelBuf::debug_text`].
pub open spec fn debug_chars(model: PixelModel) -> Seq<char> {
    "PixelBuf { width: "@ + crate::text::decimal(model.width) + ", height: "@
        + crate::text::decimal(model.height) + ", bytes: "@ + crate::text::decimal(
        model.rgba.len(),
    ) + " }"@
}

// ---------------------------------------------------------------------------
// Laws
// ---------------------------------------------------------------------------

pub(crate) proof fn lemma_alpha_by_pixel(pixels: int, rgba: Seq<u8>)
    requires
        rgba.len() == pixels * 4,
    ensures
        alpha_all_max(rgba) <==> forall|p: int| 0 <= p < pixels ==> #[trigger] rgba[4 * p + 3] == 255,
{
    if alpha_all_max(rgba) {
        assert forall|p: int| 0 <= p < pixels implies #[trigger] rgba[4 * p + 3] == 255 by {
            assert((4 * p + 3) % 4 == 3);
        }
    }
    if forall|p: int| 0 <= p < pixels ==> #[trigger] rgba[4 * p + 3] == 255 {
        assert forall|i: int| 0 <= i < rgba.len() && i % 4 == 3 implies #[trigger] rgba[i] == 255 by {
            let p = i / 4;
            assert(rgba[4 * p + 3] == 255);
        }
    }
}

/// A buffer counts as opaque only where a scan of it showed that it holds four bytes
/// for each pixel and that every pixel's alpha is 255: then, and only then, an opaque
/// one can be made. Every buffer keeps its dimensions and its bytes.
pub proof fn law_opaque_buffers_were_scanned(
    width: u32,
    height: u32,
    rgba: Vec<u8>,
    plain: PixelBuf,
    made: Option<PixelBuf>,
    scanned: PixelBuf,
)
    requires
        call_ensures(PixelBuf::new, (width, height, rgba), plain),
        call_ensures(PixelBuf::try_new_opaque, (width, height, rgba), made),
        call_ensures(PixelBuf::new_scanned, (width, height, rgba), scanned),
    ensures
        ({
            let pixels = width * height;
            let whole = rgba@.len() == pixels * 4 && forall|p: int|
                0 <= p < pixels ==> #[trigger] rgba@[4 * p + 3] == 255;
            &&& made is Some <==> whole
            &&& scanned@.opaque <==> whole
            &&& made matches Some(buf) ==> buf@.opaque && buf@.width == width && buf@.height
                == height && buf@.rgba == rgba@
            &&& scanned@.width == width && scanned@.height == height && scanned@.rgba == rgba@
            &&& !plain@.opaque && plain@.width == width && plain@.height == height && plain@.rgba
                == rgba@
        }),
{
    if rgba@.len() == width * height * 4 {
        lemma_alpha_by_pixel(width * height, rgba@);
    }
}

/// A buffer tells what it holds.
pub proof fn law_buffers_tell_what_they_hold(
    buf: PixelBuf,
    bytes: &[u8],
    taken: Vec<u8>,
    opaque: bool,
    len: usize,
    copy: PixelBuf,
)
    requires
        call_ensures(PixelBuf::rgba, (&buf,), bytes),
        call_ensures(PixelBuf::into_rgba, (buf,), taken),
        call_ensures(PixelBuf::is_opaque, (&buf,), opaque),
        call_ensures(PixelBuf::byte_len, (&buf,), len),
        call_ensures(<PixelBuf as Clone>::clone, (&buf,), copy),
    ensures
        bytes@ == buf@.rgba,
        taken@ == buf@.rgba,
        opaque == buf@.opaque,
        len == buf@.rgba.len(),
        copy@ == buf@,
{
}

/// Orientation values turn an image by the angle that the tag means, mirrored ones by
/// that of their nearest rotation, and quarter turns exchange width and height.
pub proof fn law_orientation_values_mean_their_turn(
    value: u16,
    orient: Orient,
    missing: Orient,
    swaps: bool,
)
    requires
        call_ensures(Orient::from_exif, (Some(value),), orient),
        call_ensures(Orient::from_exif, (None,), missing),
        call_ensures(Orient::swaps_axes, (orient,), swaps),
    ensures
        missing == Orient::R0,
        value <= 2 || value >= 9 ==> orient == Orient::R0,
        value == 3 || value == 4 ==> orient == Orient::R180,
        value == 5 || value == 6 ==> orient == Orient::R90,
        value == 7 || value == 8 ==> orient == Orient::R270,
        swaps <==> 5 <= value <= 8,
{
}

/// The summary of a buffer tells its width, height and length in decimal digits.
pub proof fn law_summaries_tell_the_dimensions(buf: PixelBuf, text: String)
    requires
        call_ensures(PixelBuf::debug_text, (&buf,), text),
    ensures
        exists|width: Seq<char>, height: Seq<char>, bytes: Seq<char>|
            #![trigger digits_value(width), digits_value(height), digits_value(bytes)]
            text@ == "PixelBuf { width: "@ + width + ", height: "@ + height + ", bytes: "@ + bytes
                + " }"@ && digits_value(width) == buf@.width && digits_value(height) == buf@.height
                && digits_value(bytes) == buf@.rgba.len(),
{
    law_decimal_digits_read_as_the_number(buf@.width, 0);
    law_decimal_digits_read_as_the_number(buf@.height, 0);
    law_decimal_digits_read_as_the_number(buf@.rgba.len(), 0);
    assert(digits_value(crate::text::decimal(buf@.width)) == buf@.width);
    assert(digits_value(crate::text::decimal(buf@.height)) == buf@.height);
    assert(digits_value(crate::text::decimal(buf@.rgba.len())) == buf@.rgba.len());
}

} // verus!
