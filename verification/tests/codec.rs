//! JPEG encoding and decoding of display buffers.

use viewr_core::bakeoff::measure::jpeg_sampling;
use viewr_core::bakeoff::Sampling;
use viewr_core::codec::{
    benchmark_decode_jpeg_serial, benchmark_encode_jpeg_plain, buffer_from_decoded, decode_jpeg,
    encode_cache_jpeg, encode_jpeg, encode_jpeg_on_current_pool, encode_jpeg_with_pool,
    validate_jpeg_input, DecodedRgba,
};
use viewr_core::jobs::engine::{CACHE_JPEG_QUALITY, MAX_JPEG_WORKERS};
use viewr_core::jpeg_restart::decode::try_decode;
use viewr_core::pool::{build_jpeg_pool, build_processing_pool, worker_name};
use viewr_core::types::PixelBuf;

fn patterned_buf(width: u32, height: u32) -> PixelBuf {
    let mut rgba = Vec::with_capacity(width as usize * height as usize * 4);
    for y in 0..height {
        for x in 0..width {
            rgba.extend_from_slice(&[
                (x * 255 / width.max(1)) as u8,
                (y * 255 / height.max(1)) as u8,
                ((x + y) * 255 / (width + height).max(1)) as u8,
                255,
            ]);
        }
    }
    PixelBuf::new(width, height, rgba)
}

fn textured_buf(width: u32, height: u32) -> PixelBuf {
    let mut rgba = Vec::with_capacity(width as usize * height as usize * 4);
    let mut state = 0x9E37_79B9u32;
    for y in 0..height {
        for x in 0..width {
            state = state.wrapping_mul(1_664_525).wrapping_add(1_013_904_223);
            let noise = (state >> 24) as u8;
            let edge = if (x / 37 + y / 23) % 2 == 0 { 200 } else { 40 };
            rgba.extend_from_slice(&[
                ((x * 255) / width.max(1)) as u8,
                ((y * 255) / height.max(1)) as u8 ^ (noise >> 3),
                edge ^ (noise >> 2),
                255,
            ]);
        }
    }
    PixelBuf::new(width, height, rgba)
}

#[test]
fn jpeg_results_are_identical_across_processing_thread_limits() {
    let pixels = textured_buf(1023, 769);
    let one = build_processing_pool(1).unwrap();
    let two = build_processing_pool(2).unwrap();

    let encoded_one = encode_jpeg_with_pool(&one, &pixels, 97).unwrap();
    let encoded_two = encode_jpeg_with_pool(&two, &pixels, 97).unwrap();
    let encoded_strict = encode_cache_jpeg(Some(&two), &one, &pixels, 97).unwrap();
    assert_eq!(encoded_one, encoded_two);
    assert_eq!(encoded_one, encoded_strict);

    let serial = benchmark_decode_jpeg_serial(&encoded_one).unwrap();
    assert!(
        one.install(|| try_decode(&encoded_one))
            .is_none(),
        "a one-thread limit must use the serial cache decode fallback"
    );
    let parallel_two = two
        .install(|| try_decode(&encoded_two))
        .unwrap_or_else(|| {
            panic!(
                "production-size cache JPEG uses parallel restart decoding ({} bytes)",
                encoded_two.len()
            )
        });
    let decoded_one = one.install(|| decode_jpeg(&encoded_one)).unwrap();
    let decoded_two = two.install(|| decode_jpeg(&encoded_two)).unwrap();
    for decoded in [&parallel_two, &decoded_one, &decoded_two] {
        assert_eq!(
            (decoded.width, decoded.height),
            (serial.width, serial.height)
        );
        assert_eq!(decoded.rgba(), serial.rgba());
    }
}

#[test]
fn jpeg_roundtrip_preserves_dimensions_alpha_and_visual_content() {
    let source = patterned_buf(96, 64);
    let encoded = encode_jpeg(&source, 90).unwrap();
    assert!(!encoded.is_empty());
    assert!(matches!(jpeg_sampling(&encoded), Ok(Sampling::S444)));
    let decoded = decode_jpeg(&encoded).unwrap();
    assert_eq!(
        (decoded.width, decoded.height),
        (source.width, source.height)
    );
    assert_eq!(decoded.byte_len(), source.byte_len());
    assert!(decoded.rgba().chunks_exact(4).all(|pixel| pixel[3] == 255));

    let total_error: u64 = source
        .rgba()
        .chunks_exact(4)
        .zip(decoded.rgba().chunks_exact(4))
        .map(|(expected, actual)| {
            (0..3)
                .map(|channel| expected[channel].abs_diff(actual[channel]) as u64)
                .sum::<u64>()
        })
        .sum();
    let channel_count = source.width as u64 * source.height as u64 * 3;
    assert!(
        total_error / channel_count < 5,
        "mean channel error was {}",
        total_error / channel_count
    );
}

#[test]
fn production_jpeg_quality_preserves_dark_gradients_better_than_legacy_full() {
    let width = 640_u32;
    let height = 384_u32;
    let mut rgba = Vec::with_capacity(width as usize * height as usize * 4);
    for y in 0..height {
        for x in 0..width {
            let base = 6 + ((x + y) * 58 / (width + height));
            let hash = x.wrapping_mul(0x9e37_79b9) ^ y.wrapping_mul(0x85eb_ca6b);
            let noise = ((hash ^ (hash >> 13)) % 5) as i16 - 2;
            let value = (base as i16 + noise).clamp(0, 255) as u8;
            rgba.extend_from_slice(&[value, value, value, 255]);
        }
    }
    let source = PixelBuf::new(width, height, rgba);
    let squared_error = |quality| {
        let encoded = encode_jpeg(&source, quality).expect("gradient must encode");
        let decoded = decode_jpeg(&encoded).expect("gradient must decode");
        source
        .rgba()
            .chunks_exact(4)
            .zip(decoded.rgba().chunks_exact(4))
            .map(|(expected, actual)| {
                (0..3)
                    .map(|channel| {
                        u64::from(expected[channel].abs_diff(actual[channel])).pow(2)
                    })
                    .sum::<u64>()
            })
            .sum::<u64>()
    };

    assert_eq!(CACHE_JPEG_QUALITY, 97);
    let legacy_error = squared_error(90);
    let production_error = squared_error(CACHE_JPEG_QUALITY);
    assert!(
        production_error * 4 < legacy_error * 3,
        "q97 error {production_error} was not at least 25% below q90 error {legacy_error}"
    );
}

#[test]
fn jpeg_codec_rejects_invalid_inputs() {
    assert!(decode_jpeg(b"not a jpeg").is_err());
    let valid = patterned_buf(8, 8);
    assert!(encode_jpeg(&valid, 0).is_err());
    assert!(encode_jpeg(&valid, 101).is_err());
    let zero_width = PixelBuf::new(0, 1, Vec::new());
    assert!(encode_jpeg(&zero_width, 90).is_err());
    let malformed = PixelBuf::new(2, 2, vec![0; 15]);
    assert!(encode_jpeg(&malformed, 90).is_err());
    let too_wide = PixelBuf::new(u16::MAX as u32 + 1, 1, Vec::new());
    assert!(encode_jpeg(&too_wide, 90).is_err());
}

#[test]
fn jpeg_input_validation_is_independent_of_the_encoding_pool() {
    let valid = patterned_buf(8, 6);
    assert_eq!(validate_jpeg_input(&valid, 97), Ok((8, 6, 32)));

    let malformed = PixelBuf::new(8, 6, vec![0; 8 * 6 * 4 - 1]);
    assert!(validate_jpeg_input(&malformed, 97).is_err());
    assert!(validate_jpeg_input(&valid, 0).is_err());
    assert!(validate_jpeg_input(&valid, 101).is_err());
}

#[test]
fn jpeg_encoder_does_not_leak_state_between_images() {
    let first = patterned_buf(96, 64);
    let second = patterned_buf(127, 93);

    let encoded_first = encode_jpeg(&first, 97).unwrap();
    let encoded_second = encode_jpeg(&second, 97).unwrap();

    assert_eq!(encoded_first, encode_jpeg(&first, 97).unwrap());
    assert_eq!(encoded_second, encode_jpeg(&second, 97).unwrap());
    assert_eq!(
        decode_jpeg(&encoded_second)
            .map(|decoded| (decoded.width, decoded.height))
            .unwrap(),
        (second.width, second.height)
    );
}

#[test]
fn jpeg_encoder_recovers_after_a_bad_request_and_quality_change() {
    let valid = patterned_buf(96, 64);
    let malformed = PixelBuf::new(96, 64, vec![0; 17]);
    let first = encode_jpeg(&valid, 97).unwrap();
    assert!(encode_jpeg(&malformed, 97).is_err());
    let recovered = encode_jpeg(&valid, 97).unwrap();

    assert_eq!(first, recovered);

    let changed_quality = encode_jpeg(&valid, 90).unwrap();
    assert_eq!(changed_quality, encode_jpeg(&valid, 90).unwrap());
    assert_ne!(changed_quality, first);
}

#[test]
fn refused_input_says_why() {
    let error = |buf: &PixelBuf, quality| encode_jpeg(buf, quality).unwrap_err();
    let valid = patterned_buf(8, 6);
    assert_eq!(error(&valid, 101), "JPEG quality 101 is outside 1..=100");
    assert_eq!(
        error(&PixelBuf::new(65_536, 1, Vec::new()), 90),
        "JPEG width 65536 exceeds 65535"
    );
    assert_eq!(
        error(&PixelBuf::new(1, 70_000, Vec::new()), 90),
        "JPEG height 70000 exceeds 65535"
    );
    assert_eq!(
        error(&PixelBuf::new(0, 1, Vec::new()), 90),
        "JPEG dimensions must be non-zero"
    );
    assert_eq!(
        error(&PixelBuf::new(2, 3, vec![0; 23]), 90),
        "RGBA storage has 23 bytes; expected 24 for 2x3"
    );
}

#[test]
fn plain_streams_carry_no_restart_markers() {
    let buf = textured_buf(64, 64);
    let plain = benchmark_encode_jpeg_plain(&buf, 90).unwrap();
    let marked = encode_jpeg(&buf, 90).unwrap();
    let interval = |jpeg: &[u8]| {
        jpeg.windows(2)
            .position(|pair| pair == [0xFF, 0xDD])
            .map(|at| [jpeg[at + 4], jpeg[at + 5]])
    };
    assert_eq!(interval(&plain), None);
    assert_eq!(interval(&marked), Some([0, 8]));
    assert_eq!(
        encode_jpeg_on_current_pool(&buf, 90, 1).unwrap(),
        encode_jpeg_on_current_pool(&buf, 90, 0).unwrap()
    );
}

#[test]
fn decoder_output_becomes_a_buffer() {
    let made = buffer_from_decoded(Ok(DecodedRgba {
        pixels: vec![1, 2, 3, 255],
        dimensions: Some((1, 1)),
    }))
    .unwrap();
    assert_eq!((made.width, made.height), (1, 1));
    assert!(made.is_opaque());
    let nameless = DecodedRgba {
        pixels: Vec::new(),
        dimensions: None,
    };
    assert_eq!(
        buffer_from_decoded(Ok(nameless)).err().as_deref(),
        Some("no dimensions")
    );
    assert_eq!(
        buffer_from_decoded(Err("bad".to_owned())).err().as_deref(),
        Some("bad")
    );
}

#[test]
fn pools_have_the_requested_workers() {
    assert_eq!(build_processing_pool(3).unwrap().current_num_threads(), 3);
    assert_eq!(build_jpeg_pool(0).unwrap().current_num_threads(), 1);
    assert_eq!(
        build_jpeg_pool(64).unwrap().current_num_threads(),
        MAX_JPEG_WORKERS
    );
    assert_eq!(worker_name("viewr-jpeg-", 7), "viewr-jpeg-7");
}

#[test]
fn cache_objects_are_the_same_on_either_pool() {
    let buf = textured_buf(200, 120);
    let one = build_processing_pool(1).unwrap();
    let jpeg_pool = build_jpeg_pool(2).unwrap();
    let automatic = encode_cache_jpeg(None, &jpeg_pool, &buf, 97).unwrap();
    assert_eq!(automatic, encode_cache_jpeg(Some(&one), &jpeg_pool, &buf, 97).unwrap());
    let malformed = PixelBuf::new(2, 2, vec![0; 15]);
    assert!(encode_cache_jpeg(Some(&one), &jpeg_pool, &malformed, 97).is_err());
}

#[test]
fn encoding_on_a_pool_takes_any_quality_and_worker_count() {
    let buf = textured_buf(64, 40);
    let at = |quality, threads| encode_jpeg_on_current_pool(&buf, quality, threads).unwrap();
    assert_eq!(at(0, 1), at(1, 1));
    assert_eq!(at(200, 1), at(100, 1));
    assert_eq!(at(97, 2), at(97, 1));
    assert_eq!(at(97, 0), encode_jpeg(&buf, 97).unwrap());
    assert!(encode_jpeg_on_current_pool(&PixelBuf::new(0, 4, Vec::new()), 97, 1).is_err());
}

#[test]
fn encoded_streams_record_full_chroma_and_their_size() {
    let buf = patterned_buf(300, 20);
    let stream = encode_jpeg(&buf, 90).unwrap();
    assert_eq!(jpeg_sampling(&stream), Ok(Sampling::S444));
    assert_eq!(stream[163..167], [0, 20, 1, 44]);
    let decoded = decode_jpeg(&stream).unwrap();
    assert_eq!((decoded.width, decoded.height), (300, 20));
    let plain = benchmark_encode_jpeg_plain(&buf, 90).unwrap();
    assert_eq!(plain[..177], stream[..177]);
}

#[test]
fn equal_buffers_encode_equally() {
    let (first, second) = (textured_buf(48, 32), textured_buf(48, 32));
    let pool = build_jpeg_pool(2).unwrap();
    assert_eq!(
        encode_jpeg(&first, 80).unwrap(),
        encode_jpeg_with_pool(&pool, &second, 80).unwrap()
    );
    assert_eq!(
        encode_jpeg(&first, 0).unwrap_err(),
        encode_jpeg_with_pool(&pool, &second, 0).unwrap_err()
    );
}

#[test]
fn bytes_without_the_jpeg_marker_are_refused() {
    for bytes in [&b""[..], b"\xFF", b"not a jpeg", b"\xFF\xD9\xFF\xD8"] {
        assert!(decode_jpeg(bytes).is_err());
        assert!(benchmark_decode_jpeg_serial(bytes).is_err());
    }
}

#[test]
fn rows_behind_a_broken_code_depend_on_the_split() {
    // No Huffman code is all ones. The serial decoder gives up there; a split
    // decode goes on with the next chunk.
    let mut stream = encode_jpeg(&textured_buf(1024, 768), 97).unwrap();
    let middle = (stream.len() / 2..).find(|at| stream[*at - 1] != 0xFF).unwrap();
    for pair in 0..8 {
        stream[middle + 2 * pair] = 0xFF;
        stream[middle + 2 * pair + 1] = 0x00;
    }
    let two = build_processing_pool(2).unwrap();
    let serial = benchmark_decode_jpeg_serial(&stream).unwrap();
    let split = two.install(|| decode_jpeg(&stream)).unwrap();
    assert_eq!((split.width, split.height), (serial.width, serial.height));
    assert_eq!(split.rgba()[..4096], serial.rgba()[..4096]);
    assert_ne!(split.rgba(), serial.rgba());
}
