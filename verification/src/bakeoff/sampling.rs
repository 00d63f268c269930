//! What the measures of an encoded image take in.
use vstd::prelude::*;

use super::fixtures::Fixture;
use super::measure::{
    all_opaque, alpha_at, checksum_after, examine, frame_sampling, jpeg_sampling, neighbor_delta,
    neighbor_error, pixel_checksum, rotated, row_error, sampling_from, sampling_of, step_error,
    Examined, NeighborDelta,
};
use super::{Codec, Sampling};
use crate::codec::DecodedRgba;
use crate::jpeg_restart::segments::{follows, lemma_fill_before, lemma_marker_found, stands, Segment};
use crate::jpeg_restart::{be16, ceil_div, lemma_ceil_div, lemma_marker_at, marker_at};
use crate::types::PixelBuf;

verus! {

// ---------------------------------------------------------------------------
// Chroma sampling
// ---------------------------------------------------------------------------

/// Whether a marker starts a frame: all that lie with the frame markers but those of
/// tables, extensions and conditioning.
pub open spec fn starts_a_frame(marker: u8) -> bool {
    0xC0 <= marker && marker <= 0xCF && marker != 0xC4 && marker != 0xC8 && marker != 0xCC
}

/// Whether segments follow one another from a position to the first frame, which is the
/// last one.
pub open spec fn leads_to_a_frame(bytes: Seq<u8>, at: int, trail: Seq<Segment>) -> bool {
    &&& trail.len() > 0 && trail[0].start == at
    &&& forall|k: int| 0 <= k < trail.len() ==> #[trigger] stands(bytes, trail[k])
    &&& forall|k: int| 0 <= k < trail.len() ==> (#[trigger] trail[k]).start + 4 <= bytes.len()
    &&& forall|k: int|
        0 <= k < trail.len() ==> (starts_a_frame(bytes[(#[trigger] trail[k]).code]) <==> k
            == trail.len() - 1)
    &&& forall|k: int|
        0 <= k < trail.len() ==> bytes[(#[trigger] trail[k]).code] != 0xD9 && bytes[trail[k].code]
            != 0xDA
    &&& forall|k: int| 0 < k < trail.len() ==> #[trigger] follows(trail, k)
}

proof fn lemma_frame_is_found(bytes: Seq<u8>, at: int, trail: Seq<Segment>, i: int)
    requires
        leads_to_a_frame(bytes, at, trail),
        0 <= i < trail.len(),
    ensures
        sampling_from(bytes, trail[i].start) == frame_sampling(bytes, trail.last().code + 1),
        stands(bytes, trail.last()),
    decreases trail.len() - i,
{
    let segment = trail[i];
    assert(stands(bytes, segment));
    assert(bytes[segment.start] == 0xFF);
    lemma_marker_found(bytes, segment.start, segment.code);
    lemma_marker_at(bytes, segment.start);
    if i < trail.len() - 1 {
        lemma_frame_is_found(bytes, at, trail, i + 1);
        assert(follows(trail, i + 1));
    }
}

/// The sampling of a stream is that of its first frame: full where there are three
/// components, each with factors of one.
pub proof fn law_sampling_is_that_of_the_first_frame(
    bytes: &[u8],
    sampling: Result<Sampling, String>,
    trail: Seq<Segment>,
)
    requires
        call_ensures(jpeg_sampling, (bytes,), sampling),
        bytes@.len() >= 4,
        bytes@[0] == 0xFF,
        bytes@[1] == 0xD8,
        leads_to_a_frame(bytes@, 2, trail),
    ensures
        ({
            let at = trail.last().code + 1;
            let len = trail.last().end - at;
            let full = len >= 17 && bytes@[at + 7] == 3 && bytes@[at + 9] == 0x11 && bytes@[at + 12]
                == 0x11 && bytes@[at + 15] == 0x11;
            &&& len < 11 ==> (sampling matches Err(text) && text@
                == "truncated JPEG frame header"@)
            &&& len >= 11 && full ==> sampling == Ok::<Sampling, String>(Sampling::S444)
            &&& len >= 11 && !full ==> sampling == Ok::<Sampling, String>(Sampling::Other)
        }),
{
    lemma_frame_is_found(bytes@, 2, trail, 0);
    assert(starts_a_frame(bytes@[trail[trail.len() - 1].code]));
}

proof fn lemma_trail_to_a_frame(bytes: Seq<u8>, at: int) -> (trail: Seq<Segment>)
    requires
        sampling_from(bytes, at) is Ok,
    ensures
        leads_to_a_frame(bytes, at, trail),
    decreases bytes.len() - at,
{
    lemma_marker_at(bytes, at);
    lemma_fill_before(bytes, at);
    let code = marker_at(bytes, at)->0;
    let marker = bytes[code];
    let next = code + 1;
    let alone = marker == 0x01 || (0xD0 <= marker && marker <= 0xD7);
    let end = if alone {
        next
    } else {
        next + be16(bytes, next)
    };
    let first = Segment { start: at, code, end };
    assert(stands(bytes, first));
    if starts_a_frame(marker) {
        let trail = seq![first];
        assert(leads_to_a_frame(bytes, at, trail));
        trail
    } else {
        let rest = lemma_trail_to_a_frame(bytes, end);
        let trail = seq![first] + rest;
        assert forall|k: int| 0 <= k < trail.len() implies #[trigger] stands(bytes, trail[k]) by {
            if k > 0 {
                assert(stands(bytes, rest[k - 1]));
            }
        }
        assert forall|k: int| 0 <= k < trail.len() implies (starts_a_frame(
            bytes[(#[trigger] trail[k]).code],
        ) <==> k == trail.len() - 1) && trail[k].start + 4 <= bytes.len() && bytes[trail[k].code]
            != 0xD9 && bytes[trail[k].code] != 0xDA by {
            if k > 0 {
                assert(trail[k] == rest[k - 1]);
            }
        }
        assert forall|k: int| 0 < k < trail.len() implies #[trigger] follows(trail, k) by {
            assert(trail[k] == rest[k - 1]);
            if k > 1 {
                assert(follows(rest, k - 1));
                assert(trail[k - 1] == rest[k - 2]);
            }
        }
        trail
    }
}

/// A sampling is read only of a stream that starts an image and has a frame before its
/// scan.
pub proof fn law_sampled_streams_have_a_frame(bytes: &[u8], sampling: Sampling) -> (trail: Seq<
    Segment,
>)
    requires
        call_ensures(jpeg_sampling, (bytes,), Ok(sampling)),
    ensures
        bytes@.len() >= 4,
        bytes@[0] == 0xFF,
        bytes@[1] == 0xD8,
        leads_to_a_frame(bytes@, 2, trail),
{
    assert(sampling_of(bytes@) is Ok);
    lemma_trail_to_a_frame(bytes@, 2)
}

/// An encoded image passes exactly where it decodes to the dimensions of its fixture,
/// with every pixel opaque, and has full chroma resolution.
pub proof fn law_only_faithful_images_pass(
    codec: Codec,
    fixture: &Fixture,
    encoded: &[u8],
    decoded: Result<DecodedRgba, String>,
    examined: Result<Examined, String>,
    sampling: Result<Sampling, String>,
    pixels: int,
)
    requires
        call_ensures(examine, (codec, fixture, encoded, decoded), examined),
        call_ensures(jpeg_sampling, (encoded,), sampling),
        decoded matches Ok(rgba) ==> rgba.pixels@.len() == 4 * pixels,
    ensures
        examined is Ok <==> (decoded matches Ok(rgba) && rgba.dimensions == Some(
            (fixture.width as usize, fixture.height as usize),
        ) && (forall|p: int| 0 <= p < pixels ==> #[trigger] rgba.pixels@[4 * p + 3] == 255)
            && sampling == Ok::<Sampling, String>(Sampling::S444)),
{
    if let Ok(rgba) = decoded {
        if all_opaque(rgba.pixels@) {
            assert forall|p: int| 0 <= p < pixels implies #[trigger] rgba.pixels@[4 * p + 3]
                == 255 by {
                assert(alpha_at(rgba.pixels@, p) == 255);
            }
        }
        if forall|p: int| 0 <= p < pixels ==> #[trigger] rgba.pixels@[4 * p + 3] == 255 {
            assert forall|i: int| 0 <= i && i * 4 + 3 < rgba.pixels@.len() implies #[trigger]
                alpha_at(rgba.pixels@, i) == 255 by {
                assert(rgba.pixels@[4 * i + 3] == 255);
            }
        }
    }
}

// ---------------------------------------------------------------------------
// Steps between neighbors
// ---------------------------------------------------------------------------

/// How far the step of one color from a pixel at an offset to the next one is off.
pub open spec fn step_off(source: Seq<u8>, decoded: Seq<u8>, offset: int) -> int {
    let off = (source[offset + 4] - source[offset]) - (decoded[offset + 4] - decoded[offset]);
    if off < 0 {
        -off
    } else {
        off
    }
}

/// How far the first `n` steps of a row are off, in all three colors.
pub open spec fn row_off(source: Seq<u8>, decoded: Seq<u8>, base: int, n: int) -> int
    decreases n,
{
    if n <= 0 {
        0
    } else {
        row_off(source, decoded, base, n - 1) + step_off(source, decoded, base + 4 * (n - 1))
            + step_off(source, decoded, base + 4 * (n - 1) + 1) + step_off(
            source,
            decoded,
            base + 4 * (n - 1) + 2,
        )
    }
}

/// How far the steps of the first rows are off.
pub open spec fn rows_off(source: Seq<u8>, decoded: Seq<u8>, width: int, rows: int) -> int
    decreases rows,
{
    if rows <= 0 {
        0
    } else {
        rows_off(source, decoded, width, rows - 1) + row_off(
            source,
            decoded,
            (rows - 1) * (width * 4),
            width - 1,
        )
    }
}

proof fn lemma_row_off(source: Seq<u8>, decoded: Seq<u8>, base: int, width: int, n: int)
    requires
        0 <= base,
        0 <= n < width,
        base + width * 4 <= source.len(),
        base + width * 4 <= decoded.len(),
    ensures
        row_error(
            source.subrange(base, base + width * 4),
            decoded.subrange(base, base + width * 4),
            n * 3,
        ) == row_off(source, decoded, base, n),
    decreases n,
{
    let s = source.subrange(base, base + width * 4);
    let d = decoded.subrange(base, base + width * 4);
    if n > 0 {
        lemma_row_off(source, decoded, base, width, n - 1);
        let k = (n - 1) * 3;
        assert(k / 3 == n - 1 && k % 3 == 0);
        assert((k + 1) / 3 == n - 1 && (k + 1) % 3 == 1);
        assert((k + 2) / 3 == n - 1 && (k + 2) % 3 == 2);
        assert((k + 3) / 3 == n && (k + 3) % 3 == 0);
        assert((k + 4) / 3 == n && (k + 4) % 3 == 1);
        assert((k + 5) / 3 == n && (k + 5) % 3 == 2);
        assert(step_error(s, d, k) == step_off(source, decoded, base + 4 * (n - 1)));
        assert(step_error(s, d, k + 1) == step_off(source, decoded, base + 4 * (n - 1) + 1));
        assert(step_error(s, d, k + 2) == step_off(source, decoded, base + 4 * (n - 1) + 2));
        assert(row_error(s, d, k + 1) == row_error(s, d, k) + step_error(s, d, k));
        assert(row_error(s, d, k + 2) == row_error(s, d, k + 1) + step_error(s, d, k + 1));
        assert(row_error(s, d, k + 3) == row_error(s, d, k + 2) + step_error(s, d, k + 2));
    }
}

proof fn lemma_rows_off(source: Seq<u8>, decoded: Seq<u8>, width: int, rows: int)
    requires
        0 < width,
        0 <= rows,
        rows * (width * 4) <= source.len(),
        rows * (width * 4) <= decoded.len(),
    ensures
        neighbor_error(source, decoded, width, rows) == rows_off(source, decoded, width, rows),
    decreases rows,
{
    if rows > 0 {
        let stride = width * 4;
        assert((rows - 1) * stride + stride == rows * stride) by (nonlinear_arith);
        assert(0 <= (rows - 1) * stride) by (nonlinear_arith)
            requires
                1 <= rows,
                0 < stride,
        ;
        lemma_rows_off(source, decoded, width, rows - 1);
        lemma_row_off(source, decoded, (rows - 1) * stride, width, width - 1);
    }
}

/// The steps between neighbors are compared in every whole row that both images have, in
/// all three colors: how far they are off in all, and how many there are.
pub proof fn law_every_step_counts(
    source: &[u8],
    decoded: &[u8],
    width: u32,
    delta: NeighborDelta,
    rows: int,
)
    requires
        0 < width,
        call_ensures(neighbor_delta, (source, decoded, width), delta),
        0 <= rows,
        rows * (width * 4) <= source@.len(),
        rows * (width * 4) <= decoded@.len(),
        source@.len() < (rows + 1) * (width * 4) || decoded@.len() < (rows + 1) * (width * 4),
    ensures
        delta.total == rows_off(source@, decoded@, width as int, rows),
        delta.samples == rows * ((width - 1) * 3),
{
    let stride = width as int * 4;
    let shorter = if source@.len() < decoded@.len() {
        source@.len() as int
    } else {
        decoded@.len() as int
    };
    let q = shorter / stride;
    vstd::arithmetic::div_mod::lemma_fundamental_div_mod(shorter, stride);
    assert(q == rows) by (nonlinear_arith)
        requires
            shorter == stride * q + shorter % stride,
            0 <= shorter % stride < stride,
            rows * stride <= shorter < (rows + 1) * stride,
            0 < stride,
    ;
    lemma_rows_off(source@, decoded@, width as int, rows);
}

// ---------------------------------------------------------------------------
// Checksums
// ---------------------------------------------------------------------------

proof fn lemma_same_samples(seed: u64, a: Seq<u8>, b: Seq<u8>, n: int)
    requires
        forall|i: int| 0 <= i < n ==> #[trigger] a[i * 4_099] == b[i * 4_099],
    ensures
        checksum_after(seed, a, n) == checksum_after(seed, b, n),
    decreases n,
{
    if n > 0 {
        lemma_same_samples(seed, a, b, n - 1);
        assert(a[(n - 1) * 4_099] == b[(n - 1) * 4_099]);
    }
}

proof fn lemma_turned_apart(x: u64, y: u64, b: u64)
    requires
        x != y,
    ensures
        rotated(x) ^ b != rotated(y) ^ b,
{
    assert(((x << 7) | (x >> 57)) ^ b != ((y << 7) | (y >> 57)) ^ b) by (bit_vector)
        requires
            x != y,
    ;
}

proof fn lemma_stays_apart(s: u64, t: u64, a: Seq<u8>, b: Seq<u8>, k: int, n: int)
    requires
        0 <= k <= n,
        checksum_after(s, a, k) != checksum_after(t, b, k),
        forall|i: int| k <= i < n ==> #[trigger] a[i * 4_099] == b[i * 4_099],
    ensures
        checksum_after(s, a, n) != checksum_after(t, b, n),
    decreases n - k,
{
    if k < n {
        lemma_stays_apart(s, t, a, b, k, n - 1);
        assert(a[(n - 1) * 4_099] == b[(n - 1) * 4_099]);
        lemma_turned_apart(
            checksum_after(s, a, n - 1),
            checksum_after(t, b, n - 1),
            a[(n - 1) * 4_099] as u64,
        );
    }
}

/// Two images of the same dimensions and length whose samples, one byte in every 4099,
/// are the same have the same checksum. Where one sample differs, the checksums differ.
pub proof fn law_checksums_see_every_sample(
    a: &PixelBuf,
    b: &PixelBuf,
    first: u64,
    second: u64,
    k: int,
)
    requires
        call_ensures(pixel_checksum, (a,), first),
        call_ensures(pixel_checksum, (b,), second),
        a@.width == b@.width,
        a@.height == b@.height,
        a@.rgba.len() == b@.rgba.len(),
        forall|i: int|
            0 <= i && i * 4_099 < a@.rgba.len() && i != k ==> #[trigger] a@.rgba[i * 4_099]
                == b@.rgba[i * 4_099],
        0 <= k,
        k * 4_099 < a@.rgba.len(),
    ensures
        first == second <==> a@.rgba[k * 4_099] == b@.rgba[k * 4_099],
{
    let s = a@.rgba;
    let t = b@.rgba;
    let n = ceil_div(s.len() as int, 4_099);
    lemma_ceil_div(s.len() as int, 4_099);
    let seed = (((a@.width as u32) as u64) << 32) | ((a@.height as u32) as u64);
    assert(k < n);
    if s[k * 4_099] == t[k * 4_099] {
        assert forall|i: int| 0 <= i < n implies #[trigger] s[i * 4_099] == t[i * 4_099] by {
            assert(i * 4_099 < s.len());
        }
        lemma_same_samples(seed, s, t, n);
    } else {
        lemma_same_samples(seed, s, t, k);
        let x = rotated(checksum_after(seed, s, k));
        let p = s[k * 4_099] as u64;
        let q = t[k * 4_099] as u64;
        assert(x ^ p != x ^ q) by (bit_vector)
            requires
                p != q,
        ;
        assert(checksum_after(seed, s, k + 1) != checksum_after(seed, t, k + 1));
        assert forall|i: int| k + 1 <= i < n implies #[trigger] s[i * 4_099] == t[i * 4_099] by {
            assert(i * 4_099 < s.len());
        }
        lemma_stays_apart(seed, seed, s, t, k + 1, n);
        lemma_apart_by_length(checksum_after(seed, s, n), checksum_after(seed, t, n), s.len() as u64);
    }
}

proof fn lemma_apart_by_length(x: u64, y: u64, len: u64)
    requires
        x != y,
    ensures
        x ^ len != y ^ len,
{
    assert(x ^ len != y ^ len) by (bit_vector)
        requires
            x != y,
    ;
}

/// Two images of the same bytes whose dimensions differ have different checksums.
pub proof fn law_checksums_see_the_dimensions(a: &PixelBuf, b: &PixelBuf, first: u64, second: u64)
    requires
        call_ensures(pixel_checksum, (a,), first),
        call_ensures(pixel_checksum, (b,), second),
        a@.rgba == b@.rgba,
        a@.width <= u32::MAX,
        a@.height <= u32::MAX,
        b@.width <= u32::MAX,
        b@.height <= u32::MAX,
        a@.width != b@.width || a@.height != b@.height,
    ensures
        first != second,
{
    let rgba = a@.rgba;
    let n = ceil_div(rgba.len() as int, 4_099);
    lemma_ceil_div(rgba.len() as int, 4_099);
    let aw = a@.width as u32;
    let ah = a@.height as u32;
    let bw = b@.width as u32;
    let bh = b@.height as u32;
    let s = ((aw as u64) << 32) | (ah as u64);
    let t = ((bw as u64) << 32) | (bh as u64);
    assert(((aw as u64) << 32) | (ah as u64) != ((bw as u64) << 32) | (bh as u64)) by (bit_vector)
        requires
            aw != bw || ah != bh,
    ;
    lemma_stays_apart(s, t, rgba, rgba, 0, n);
    lemma_apart_by_length(checksum_after(s, rgba, n), checksum_after(t, rgba, n), rgba.len() as u64);
}

} // verus!
