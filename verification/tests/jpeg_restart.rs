//! Decode of restart-marked JPEG streams, split by rows.

use std::cell::{Cell, RefCell};

use viewr_core::codec::{decode_jpeg, encode_jpeg};
use viewr_core::jpeg_restart::chunks::{band_mcu_rows, chunk_rows, BandRequest};
use viewr_core::jpeg_restart::decode::{
    begin_decode, finish_decode, try_decode, try_decode_prioritized, BandDecode, BandPixels,
    PrioritizedDecode,
};
use viewr_core::jpeg_restart::{parse_layout, Span, MIN_PARALLEL_SCAN_BYTES};
use viewr_core::types::PixelBuf;
use zune_jpeg::zune_core::colorspace::ColorSpace;
use zune_jpeg::zune_core::options::DecoderOptions;
use zune_jpeg::JpegDecoder;

/// Deterministic content with gradients, hard edges, and per-pixel noise
/// so entropy density varies strongly between rows.
fn textured_photo(width: u32, height: u32) -> PixelBuf {
    let mut rgba = Vec::with_capacity((width * height * 4) as usize);
    let mut state = 0x9E37_79B9u32;
    for y in 0..height {
        for x in 0..width {
            state = state.wrapping_mul(1_664_525).wrapping_add(1_013_904_223);
            let noise = (state >> 24) as u8;
            let edge = if (x / 37 + y / 23) % 2 == 0 { 200 } else { 40 };
            rgba.extend_from_slice(&[
                ((x * 255) / width.max(1)) as u8,
                ((y * 255) / height.max(1)) as u8 ^ (noise >> 3),
                edge ^ (noise >> 2),
                255,
            ]);
        }
    }
    PixelBuf::new(width, height, rgba)
}

fn serial_reference(bytes: &[u8]) -> PixelBuf {
    let options = DecoderOptions::default().jpeg_set_out_colorspace(ColorSpace::RGBA);
    let mut decoder = JpegDecoder::new_with_options(std::io::Cursor::new(bytes), options);
    let pixels = decoder.decode().expect("reference decode succeeds");
    let (w, h) = decoder.dimensions().expect("reference has dimensions");
    PixelBuf::new(w as u32, h as u32, pixels)
}

/// A band of relative image rows on a tile grid, with a gutter of one row.
fn uv_band(height: u32, uv_y0: f32, uv_y1: f32, align_px: u32) -> BandRequest {
    BandRequest {
        y0: (uv_y0 * height as f32).floor() as usize,
        y1: (uv_y1 * height as f32).ceil() as usize,
        align_px,
        gutter_px: 1,
    }
}

fn two_threads<R: Send>(work: impl FnOnce() -> R + Send) -> R {
    rayon::ThreadPoolBuilder::new()
        .num_threads(2)
        .build()
        .expect("two-thread pool builds")
        .install(work)
}

#[test]
fn parallel_decode_matches_serial_for_production_encodes() {
    two_threads(|| {
        for (width, height) in [(64, 48), (257, 129), (1023, 769), (16, 512)] {
            let photo = textured_photo(width, height);
            let encoded = encode_jpeg(&photo, 97).expect("encode succeeds");
            let serial = serial_reference(&encoded);
            match try_decode(&encoded) {
                Some(parallel) => {
                    assert_eq!((parallel.width, parallel.height), (width, height));
                    assert_eq!(parallel.rgba(), serial.rgba(), "{width}x{height} pixels");
                }
                // Small payloads legitimately fall below the parallel
                // threshold; the public decode still uses the serial path.
                None => assert!(
                    encoded.len() < MIN_PARALLEL_SCAN_BYTES,
                    "{width}x{height} unexpectedly refused a parallel decode"
                ),
            }
            let public = decode_jpeg(&encoded).expect("public decode succeeds");
            assert_eq!(public.rgba(), serial.rgba());
        }
    });
}

#[test]
fn band_first_decode_matches_serial_across_band_positions() {
    two_threads(|| {
        let (width, height) = (768u32, 1408u32);
        let photo = textured_photo(width, height);
        let encoded = encode_jpeg(&photo, 97).expect("encode succeeds");
        let layout = parse_layout(&encoded).expect("fixture must qualify for the parallel path");
        let serial = serial_reference(&encoded);
        let row_bytes = width as usize * 4;

        for (name, uv_y0, uv_y1) in [
            ("top", 0.0f32, 0.15f32),
            ("middle", 0.42, 0.58),
            ("bottom", 0.9, 1.0),
        ] {
            let band_seen: RefCell<Option<(u32, Vec<u8>)>> = RefCell::new(None);
            let outcome = try_decode_prioritized(
                &encoded,
                Some(uv_band(height, uv_y0, uv_y1, 256)),
                || false,
                |band: &BandPixels| {
                    assert!(
                        band_seen.borrow().is_none(),
                        "{name}: the band must publish exactly once"
                    );
                    assert_eq!(band.full_width, width, "{name}: band width");
                    assert_eq!(band.full_height, height, "{name}: band height");
                    *band_seen.borrow_mut() = Some((band.y0, band.rows.clone()));
                },
            );
            let PrioritizedDecode::Done(parallel) = outcome else {
                panic!("{name}: prioritized decode must complete");
            };
            assert_eq!((parallel.width, parallel.height), (width, height));
            assert_eq!(parallel.rgba(), serial.rgba(), "{name}: final pixels");

            let (y0, rows) = band_seen.into_inner().expect("a mid-frame band must publish");
            let y0 = y0 as usize;
            // Band geometry invariants: whole MCU rows only, tight packing,
            // and full coverage of the requested extent after tile alignment
            // and gutter expansion.
            assert_eq!(y0 % layout.mcu_row_px, 0, "{name}: MCU alignment");
            assert_eq!(rows.len() % row_bytes, 0, "{name}: packed rows");
            let band_h = rows.len() / row_bytes;
            let requested_y0 = (uv_y0 * height as f32).floor() as usize;
            let requested_y1 = ((uv_y1 * height as f32).ceil() as usize).min(height as usize);
            assert!(y0 <= requested_y0, "{name}: band starts above the request");
            assert!(
                y0 + band_h >= requested_y1,
                "{name}: band ends below the request"
            );
            assert!(y0 + band_h <= height as usize, "{name}: band inside frame");
            // The published rows equal the same rows of the serial output.
            assert_eq!(
                rows.as_slice(),
                &serial.rgba()[y0 * row_bytes..y0 * row_bytes + rows.len()],
                "{name}: band rows"
            );
        }
    });
}

#[test]
fn full_frame_and_degenerate_bands_decode_single_phase() {
    two_threads(|| {
        let photo = textured_photo(768, 900);
        let encoded = encode_jpeg(&photo, 97).expect("encode succeeds");
        assert!(parse_layout(&encoded).is_some());
        let serial = serial_reference(&encoded);

        // Full-frame coverage (0..1 with a 1024 tile grid), an empty band,
        // and an inverted band all collapse to the single-phase
        // decode without a publication.
        for (uv_y0, uv_y1) in [(0.0f32, 1.0f32), (0.5, 0.5), (0.7, 0.2)] {
            let band_calls = Cell::new(0usize);
            let outcome = try_decode_prioritized(
                &encoded,
                Some(uv_band(900, uv_y0, uv_y1, 1024)),
                || false,
                |_: &BandPixels| band_calls.set(band_calls.get() + 1),
            );
            let PrioritizedDecode::Done(parallel) = outcome else {
                panic!("({uv_y0}, {uv_y1}) must complete");
            };
            assert_eq!(parallel.rgba(), serial.rgba(), "({uv_y0}, {uv_y1}) pixels");
            assert_eq!(band_calls.get(), 0, "({uv_y0}, {uv_y1}) must not publish");
        }
    });
}

#[test]
fn cancellation_at_the_phase_boundary_keeps_the_published_band_valid() {
    two_threads(|| {
        let (width, height) = (768u32, 1408u32);
        let photo = textured_photo(width, height);
        let encoded = encode_jpeg(&photo, 97).expect("encode succeeds");
        assert!(parse_layout(&encoded).is_some());
        let serial = serial_reference(&encoded);

        let cancel = Cell::new(false);
        let band_seen: RefCell<Option<(u32, Vec<u8>)>> = RefCell::new(None);
        let outcome = try_decode_prioritized(
            &encoded,
            Some(uv_band(height, 0.4, 0.6, 256)),
            || cancel.get(),
            |band: &BandPixels| {
                *band_seen.borrow_mut() = Some((band.y0, band.rows.clone()));
                // Flip after publication, exactly like a replan that lands
                // between the two decode phases.
                cancel.set(true);
            },
        );
        assert!(matches!(outcome, PrioritizedDecode::Cancelled));

        let (y0, rows) = band_seen.into_inner().expect("the band publishes before the cancellation check");
        let row_bytes = width as usize * 4;
        let start = y0 as usize * row_bytes;
        assert_eq!(
            rows.as_slice(),
            &serial.rgba()[start..start + rows.len()],
            "cancelled decode still published exact band rows"
        );
    });
}

#[test]
fn fallback_streams_stay_unsupported_through_the_prioritized_entry_point() {
    let photo = textured_photo(512, 384);
    let band = || {
        Some(uv_band(384, 0.3, 0.7, 64))
    };

    let mut markerless = Vec::new();
    let mut encoder = jpeg_rusturbo::JpegEncoder::new_with_quality(&mut markerless, 97);
    encoder.set_subsampling(jpeg_rusturbo::ChromaSubsampling::Yuv444);
    encoder
        .encode_rgba(photo.rgba(), photo.width, photo.height)
        .expect("markerless encode succeeds");
    drop(encoder);

    let mut progressive = Vec::new();
    let mut encoder = jpeg_rusturbo::JpegEncoder::new_with_quality(&mut progressive, 97);
    encoder.set_progressive(true);
    encoder.set_restart_interval(512u16.div_ceil(16));
    encoder
        .encode_rgba(photo.rgba(), photo.width, photo.height)
        .expect("progressive encode succeeds");
    drop(encoder);

    let mut subsampled = Vec::new();
    let mut encoder = jpeg_rusturbo::JpegEncoder::new_with_quality(&mut subsampled, 92);
    encoder.set_restart_interval(512u16.div_ceil(16));
    encoder
        .encode_rgba(photo.rgba(), photo.width, photo.height)
        .expect("4:2:0 encode succeeds");
    drop(encoder);

    for (name, stream) in [
        ("markerless", markerless.as_slice()),
        ("progressive", progressive.as_slice()),
        ("4:2:0", subsampled.as_slice()),
    ] {
        let band_calls = Cell::new(0usize);
        assert!(
            matches!(
                try_decode_prioritized(stream, band(), || false, |_: &BandPixels| band_calls.set(band_calls.get() + 1)),
                PrioritizedDecode::Unsupported
            ),
            "{name} stream must fall back to the serial decode"
        );
        assert_eq!(band_calls.get(), 0, "{name} stream must not publish a band");
    }

    let encoded = encode_jpeg(&textured_photo(1024, 768), 97).expect("encode succeeds");
    assert!(parse_layout(&encoded).is_some());
    for cut in [0, 16, encoded.len() / 2, encoded.len() - 1] {
        let band_calls = Cell::new(0usize);
        assert!(
            matches!(
                try_decode_prioritized(
                    &encoded[..cut],
                    band(),
                    || false,
                    |_: &BandPixels| band_calls.set(band_calls.get() + 1)
                ),
                PrioritizedDecode::Unsupported
            ),
            "truncated at {cut}"
        );
        assert_eq!(band_calls.get(), 0, "truncated at {cut} must not publish");
    }
}

#[test]
fn single_thread_pools_fall_back_to_unsupported_without_a_band() {
    let encoded = encode_jpeg(&textured_photo(1023, 769), 97).expect("encode succeeds");
    assert!(parse_layout(&encoded).is_some());
    let pool = rayon::ThreadPoolBuilder::new()
        .num_threads(1)
        .build()
        .expect("one-thread pool builds");
    let outcome = pool.install(|| {
        try_decode_prioritized(
            &encoded,
            Some(uv_band(769, 0.4, 0.6, 256)),
            || false,
            |_: &BandPixels| panic!("the serial fallback must not publish a band"),
        )
    });
    assert!(matches!(outcome, PrioritizedDecode::Unsupported));
}

#[test]
fn parallel_decode_handles_yuv422_row_intervals() {
    two_threads(|| {
        let photo = textured_photo(1022, 1280);
        let mut encoded = Vec::new();
        let mut encoder = jpeg_rusturbo::JpegEncoder::new_with_quality(&mut encoded, 92);
        // 4:2:2 halves chroma horizontally only: an MCU covers 16×8 pixels and
        // chroma upsampling never crosses a row boundary.
        encoder.set_subsampling(jpeg_rusturbo::ChromaSubsampling::Yuv422);
        encoder.set_restart_interval(1022u16.div_ceil(16));
        encoder
            .encode_rgba(photo.rgba(), photo.width, photo.height)
            .expect("4:2:2 encode succeeds");
        drop(encoder);

        let layout = parse_layout(&encoded).expect("4:2:2 row-interval stream parses");
        assert_eq!(layout.mcu_row_px, 8);
        assert_eq!(layout.rows.len(), 1280usize.div_ceil(8));
        let parallel = try_decode(&encoded).expect("4:2:2 stream decodes in parallel");
        let serial = serial_reference(&encoded);
        assert_eq!(parallel.rgba(), serial.rgba());
    });
}

#[test]
fn vertically_subsampled_streams_fall_back() {
    let photo = textured_photo(1022, 1280);
    let mut encoded = Vec::new();
    let mut encoder = jpeg_rusturbo::JpegEncoder::new_with_quality(&mut encoded, 92);
    // Default 4:2:0 subsampling: fancy chroma upsampling interpolates
    // across MCU rows, so a chunked decode would differ at chunk seams.
    encoder.set_restart_interval(1022u16.div_ceil(16));
    encoder
        .encode_rgba(photo.rgba(), photo.width, photo.height)
        .expect("4:2:0 encode succeeds");
    drop(encoder);

    assert!(parse_layout(&encoded).is_none(), "4:2:0 stream split");
    assert!(decode_jpeg(&encoded).is_ok());
}

#[test]
fn restart_markers_do_not_change_decoded_pixels() {
    let photo = textured_photo(320, 240);
    let with_markers = encode_jpeg(&photo, 97).expect("marker encode succeeds");
    let mut plain = Vec::new();
    let mut encoder = jpeg_rusturbo::JpegEncoder::new_with_quality(&mut plain, 97);
    encoder.set_subsampling(jpeg_rusturbo::ChromaSubsampling::Yuv444);
    encoder
        .encode_rgba(photo.rgba(), photo.width, photo.height)
        .expect("plain encode succeeds");
    drop(encoder);

    assert_eq!(
        serial_reference(&with_markers).rgba(),
        serial_reference(&plain).rgba(),
        "restart markers changed decoded pixels"
    );
}

#[test]
fn markerless_progressive_and_undersized_streams_fall_back() {
    let photo = textured_photo(512, 384);

    let mut plain = Vec::new();
    let mut encoder = jpeg_rusturbo::JpegEncoder::new_with_quality(&mut plain, 97);
    encoder.set_subsampling(jpeg_rusturbo::ChromaSubsampling::Yuv444);
    encoder
        .encode_rgba(photo.rgba(), photo.width, photo.height)
        .expect("plain encode succeeds");
    drop(encoder);
    assert!(parse_layout(&plain).is_none(), "markerless stream split");
    assert!(decode_jpeg(&plain).is_ok());

    let mut progressive = Vec::new();
    let mut encoder = jpeg_rusturbo::JpegEncoder::new_with_quality(&mut progressive, 97);
    encoder.set_progressive(true);
    encoder.set_restart_interval(512u16.div_ceil(16));
    encoder
        .encode_rgba(photo.rgba(), photo.width, photo.height)
        .expect("progressive encode succeeds");
    drop(encoder);
    assert!(
        parse_layout(&progressive).is_none(),
        "progressive stream split"
    );
    assert!(decode_jpeg(&progressive).is_ok());

    // A single-MCU-row image can never split.
    let short = textured_photo(2048, 8);
    let encoded = encode_jpeg(&short, 97).expect("encode succeeds");
    assert!(parse_layout(&encoded).is_none(), "single-row stream split");
    assert!(decode_jpeg(&encoded).is_ok());
}

#[test]
fn corrupt_streams_fall_back_without_panicking() {
    let photo = textured_photo(1024, 768);
    let encoded = encode_jpeg(&photo, 97).expect("encode succeeds");
    assert!(parse_layout(&encoded).is_some());

    for cut in [0, 1, 2, 3, 16, encoded.len() / 2, encoded.len() - 1] {
        let truncated = &encoded[..cut];
        assert!(try_decode(truncated).is_none(), "truncated at {cut}");
        let _ = decode_jpeg(truncated);
    }

    // Corrupting the DRI interval must refuse the split rather than
    // produce wrong geometry.
    let mut wrong_interval = encoded.clone();
    let dri = wrong_interval
        .windows(2)
        .position(|pair| pair == [0xFF, 0xDD])
        .expect("production encode carries DRI");
    wrong_interval[dri + 4] ^= 0x01;
    assert!(parse_layout(&wrong_interval).is_none());
}

#[test]
fn chunking_covers_every_row_without_empty_chunks() {
    for row_count in [2usize, 3, 9, 64, 583] {
        let rows: Vec<_> = (0..row_count)
            .map(|row| {
                let start = row * 1000;
                // Vary the density so byte balancing is exercised.
                Span { start, end: start + 100 + (row % 7) * 400 }
            })
            .collect();
        for target in [1usize, 2, 3, 8, 10, 16, row_count, row_count + 5] {
            let chunks = chunk_rows(&rows, target);
            assert!(!chunks.is_empty());
            assert!(chunks.len() <= target.max(1).min(row_count));
            assert_eq!(chunks[0].start, 0);
            assert_eq!(chunks.last().unwrap().end, row_count);
            for pair in chunks.windows(2) {
                assert_eq!(pair[0].end, pair[1].start);
                assert!(pair[0].start < pair[0].end);
                assert!(pair[1].start < pair[1].end);
            }
        }
    }
}

#[test]
fn band_geometry_covers_tiles_and_gutter() {
    let encoded = encode_jpeg(&textured_photo(768, 1408), 97).expect("encode succeeds");
    let layout = parse_layout(&encoded).expect("fixture splits");
    let band = |y0, y1, align_px, gutter_px| {
        band_mcu_rows(&layout, BandRequest { y0, y1, align_px, gutter_px })
    };
    assert_eq!(band(600, 700, 256, 1), Some(Span { start: 63, end: 97 }));
    assert_eq!(band(600, 700, 0, 0), Some(Span { start: 75, end: 88 }));
    assert_eq!(band(1400, 9000, 1, 0), Some(Span { start: 175, end: 176 }));
    assert_eq!(band(700, 700, 8, 0), None);
    assert_eq!(band(0, 1408, 8, 0), None);
    assert_eq!(band(8, 16, 2048, 0), None);
}

#[test]
fn decode_goes_on_after_its_band() {
    let photo = textured_photo(768, 1408);
    let encoded = encode_jpeg(&photo, 97).expect("encode succeeds");
    let serial = serial_reference(&encoded);
    let request = Some(uv_band(1408, 0.4, 0.6, 256));
    assert!(matches!(
        begin_decode(&encoded, request, 1),
        BandDecode::Unsupported
    ));
    let BandDecode::Band(pending) = begin_decode(&encoded, request, 3) else {
        panic!("the band decodes first");
    };
    let start = pending.band.y0 as usize * 768 * 4;
    let rows = pending.band.rows.clone();
    assert_eq!(rows.as_slice(), &serial.rgba()[start..start + rows.len()]);
    let PrioritizedDecode::Done(frame) = finish_decode(&encoded, pending, false) else {
        panic!("the other rows decode");
    };
    assert_eq!(frame.rgba(), serial.rgba());
    assert!(frame.is_opaque());

    let BandDecode::Band(again) = begin_decode(&encoded, request, 3) else {
        panic!("the band decodes first");
    };
    assert!(matches!(
        finish_decode(&encoded, again, true),
        PrioritizedDecode::Cancelled
    ));
}

#[test]
fn layout_names_every_row_of_the_scan() {
    let encoded = encode_jpeg(&textured_photo(1023, 769), 97).expect("encode succeeds");
    let layout = parse_layout(&encoded).expect("fixture splits");
    assert_eq!((layout.width, layout.height), (1023, 769));
    assert_eq!(layout.rows.len(), 97);
    assert_eq!(layout.rows[0].start, layout.entropy_start);
    assert_eq!(layout.rows[96].end, encoded.len() - 2);
    for pair in layout.rows.windows(2) {
        assert_eq!(pair[1].start, pair[0].end + 2);
        assert_eq!(encoded[pair[0].end], 0xFF);
        assert!((0xD0..=0xD7).contains(&encoded[pair[0].end + 1]));
    }
}

#[test]
fn trailing_rows_stay_in_the_last_chunk() {
    let span = |start, end| Span { start, end };
    let rows = [span(0, 3), span(3, 5), span(5, 5), span(5, 5)];
    let chunks = chunk_rows(&rows, 2);
    assert_eq!(chunks, [span(0, 1), span(1, 4)]);
}
