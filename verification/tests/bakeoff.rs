//! The comparison of JPEG encoders.

use viewr_core::bakeoff::encode::{
    encode, encode_rusturbo, validate_input, DedicatedRusturboEncoder,
};
use viewr_core::bakeoff::fixtures::{
    chroma_edges, dark_gradient, fixtures, full_resolution_fixture, low_entropy, synthetic_photo,
    Fixture,
};
use viewr_core::bakeoff::measure::{
    cross_decode, examine, jpeg_sampling, median, neighbor_delta, pixel_checksum, rgb_error,
    Examined,
};
use viewr_core::bakeoff::{codec_names, parse_codec, Codec, Sampling, QUALITIES};
use viewr_core::codec::DecodedRgba;
use viewr_core::types::PixelBuf;

/// The C encoder is not part of the library.
fn no_turbojpeg(_: &Fixture, _: u8) -> Result<Vec<u8>, String> {
    Err("not linked".to_owned())
}

fn native_codecs() -> impl Iterator<Item = Codec> {
    Codec::all()
        .into_iter()
        .filter(|codec| *codec != Codec::LibjpegTurboC)
}

fn probe(codec: Codec, fixture: &Fixture, quality: u8) -> Result<Examined, String> {
    let encoded = encode(codec, fixture, quality, no_turbojpeg)?;
    cross_decode(codec, fixture, &encoded)
}

fn psnr(examined: &Examined) -> f64 {
    let mse = examined.error.squared as f64 / examined.error.samples as f64;
    10.0 * (255.0_f64.powi(2) / mse).log10()
}

#[test]
fn every_codec_cross_decodes_as_opaque_444() {
    let fixture = synthetic_photo("small", 127, 93);
    for codec in native_codecs() {
        let result = probe(codec, &fixture, 97).unwrap();
        assert_eq!(result.sampling, Sampling::S444, "{}", codec.name());
        assert!(psnr(&result) > 30.0, "{}: {}", codec.name(), psnr(&result));
    }
}

#[test]
fn invalid_fixture_is_rejected_before_ffi() {
    let fixture = Fixture {
        name: "invalid",
        width: 20,
        height: 20,
        rgba: vec![0; 7],
    };
    for codec in Codec::all() {
        let error = encode(codec, &fixture, 97, |_, _| panic!("called")).unwrap_err();
        assert_eq!(error, "RGBA length mismatch: got 7, expected 1600");
    }
}

#[test]
fn invalid_quality_is_rejected_by_probe() {
    let fixture = synthetic_photo("small", 8, 8);
    assert!(probe(Codec::LibjpegTurboC, &fixture, 0).is_err());
    assert!(probe(Codec::LibjpegTurboC, &fixture, 101).is_err());
    assert_eq!(
        validate_input(&fixture, 101).unwrap_err(),
        "quality must be in 1..=100"
    );
}

#[test]
fn dedicated_rusturbo_pool_matches_automatic_output() {
    let fixture = synthetic_photo("small", 127, 93);
    let dedicated = DedicatedRusturboEncoder::new(2, 97).unwrap();
    assert_eq!(dedicated.workers(), 2);
    assert_eq!(
        dedicated.encode(&fixture).unwrap(),
        encode(
            Codec::JpegRusturboRows { threads: 0 },
            &fixture,
            97,
            no_turbojpeg,
        )
        .unwrap()
    );
}

#[test]
fn dedicated_rusturbo_pool_rejects_invalid_configuration() {
    assert!(DedicatedRusturboEncoder::new(0, 97).is_err());
    assert!(DedicatedRusturboEncoder::new(2, 0).is_err());
    assert!(DedicatedRusturboEncoder::new(2, 101).is_err());
}

#[test]
fn configuration_errors_say_why() {
    let error = |workers, quality| DedicatedRusturboEncoder::new(workers, quality).err().unwrap();
    assert_eq!(error(0, 0), "dedicated JPEG pool must have at least one worker");
    assert_eq!(error(1, 0), "quality must be in 1..=100");
    let empty = Fixture {
        name: "empty",
        width: 0,
        height: 3,
        rgba: Vec::new(),
    };
    assert_eq!(validate_input(&empty, 90).unwrap_err(), "zero-sized fixture");
    let huge = Fixture {
        name: "huge",
        width: u32::MAX,
        height: u32::MAX,
        rgba: Vec::new(),
    };
    assert_eq!(
        validate_input(&huge, 90).unwrap_err(),
        "fixture dimensions overflow"
    );
}

#[test]
fn dimensions_beyond_the_format_are_refused() {
    let wide = chroma_edges("wide", 65_536, 1);
    let tall = chroma_edges("tall", 1, 65_536);
    let error = |codec, fixture| encode(codec, fixture, 90, no_turbojpeg).unwrap_err();
    assert_eq!(error(Codec::JpegEncoder, &wide), "width exceeds JPEG API limit");
    assert_eq!(error(Codec::JpegEncoder, &tall), "height exceeds JPEG API limit");
    let rows = Codec::JpegRusturboRows { threads: 1 };
    assert_eq!(error(rows, &wide), "jpeg-rusturbo failed");
    assert_eq!(error(Codec::LibjpegTurboRs, &tall), "libjpeg-turbo-rs failed");
    assert_eq!(error(Codec::LibjpegTurboC, &tall), "not linked");
}

#[test]
fn thread_counts_do_not_show_in_the_stream() {
    let fixture = synthetic_photo("small", 127, 93);
    let serial = encode_rusturbo(&fixture, 90, 1, true).unwrap();
    assert_eq!(encode_rusturbo(&fixture, 90, 4, true).unwrap(), serial);
    assert_eq!(encode_rusturbo(&fixture, 90, 0, true).unwrap(), serial);
    assert_ne!(encode_rusturbo(&fixture, 90, 1, false).unwrap(), serial);
}

#[test]
fn codecs_are_found_by_name() {
    let all = Codec::all();
    assert_eq!(all.len(), 13);
    for codec in all {
        assert_eq!(parse_codec(codec.name()), Some(codec));
    }
    assert_eq!(parse_codec("libjpeg-turbo-c-reused"), Some(Codec::LibjpegTurboC));
    assert_eq!(parse_codec("jpeg-rusturbo-custom"), None);
    assert_eq!(Codec::JpegRusturbo { threads: 3 }.name(), "jpeg-rusturbo-custom");
    assert_eq!(
        codec_names(),
        "jpeg-encoder, jpeg-rusturbo-t1, jpeg-rusturbo-t2, jpeg-rusturbo-t4, \
         jpeg-rusturbo-t8, jpeg-rusturbo-auto, jpeg-rusturbo-rows-t1, jpeg-rusturbo-rows-t2, \
         jpeg-rusturbo-rows-t4, jpeg-rusturbo-rows-t8, jpeg-rusturbo-rows-auto, \
         libjpeg-turbo-rs, libjpeg-turbo-c, libjpeg-turbo-c-reused"
    );
    assert_eq!(QUALITIES, [80, 90, 97, 100]);
    assert_eq!(Sampling::Other.name(), "other");
}

#[test]
fn fixtures_hold_their_patterns() {
    let named: Vec<_> = fixtures()
        .iter()
        .map(|fixture| (fixture.name, fixture.width, fixture.height, fixture.rgba.len()))
        .collect();
    assert_eq!(
        named,
        [
            ("photo_8mp", 3504, 2336, 3504 * 2336 * 4),
            ("dark_gradient", 2048, 1365, 2048 * 1365 * 4),
            ("chroma_edges", 2048, 1365, 2048 * 1365 * 4),
            ("low_entropy", 2048, 1365, 2048 * 1365 * 4),
        ]
    );
    let full = full_resolution_fixture();
    assert_eq!((full.name, full.width, full.height), ("photo_33mp", 7008, 4672));

    let pixel = |fixture: &Fixture, x: u32, y: u32| {
        let at = ((y * fixture.width + x) * 4) as usize;
        fixture.rgba[at..at + 4].to_vec()
    };
    let photo = synthetic_photo("photo", 200, 150);
    for (x, y) in [(0u32, 0u32), (1, 0), (96, 17), (199, 149), (37, 101)] {
        let hash = x.wrapping_mul(0x9e37_79b9).rotate_left(y & 15) ^ y.wrapping_mul(0x85eb_ca6b);
        let texture = ((hash ^ (hash >> 13)) & 0x1f) as u8;
        let gradient = ((x * 173 / 200) + (y * 61 / 150)) as u8;
        let checker = if ((x / 96) + (y / 96)) & 1 == 0 { 18 } else { 0 };
        assert_eq!(
            pixel(&photo, x, y),
            [
                gradient.saturating_add(texture / 2),
                gradient.wrapping_add((x / 19) as u8).saturating_add(checker),
                gradient.wrapping_add((y / 17) as u8).saturating_sub(texture / 3),
                255,
            ]
        );
    }
    let dark = dark_gradient("dark", 100, 50);
    assert_eq!(pixel(&dark, 0, 0), [4, 3, 8, 255]);
    assert_eq!(pixel(&dark, 99, 49), [4 + 62 + 3, 3 + 62, 8 + 62 - 3, 255]);
    let edges = chroma_edges("edges", 12, 5);
    assert_eq!(pixel(&edges, 3, 0), [20, 220, 50, 255]);
    assert_eq!(pixel(&edges, 11, 4), [230, 220, 25, 255]);
    let gray = low_entropy("gray", 10, 2);
    assert_eq!(pixel(&gray, 6, 0), [154, 151, 148, 255]);
    assert_eq!(pixel(&gray, 5, 1), [147, 147, 147, 255]);
    assert!(synthetic_photo("none", 0, 7).rgba.is_empty());
}

#[test]
fn sampling_is_read_out_of_the_frame_header() {
    let error = |bytes: &[u8]| jpeg_sampling(bytes).unwrap_err();
    assert_eq!(error(b"BM.."), "not a JPEG stream");
    assert_eq!(error(&[0xff, 0xd8, 0, 0, 0, 0]), "invalid JPEG marker at offset 2");
    assert_eq!(error(&[0xff, 0xd8, 0xff, 0xff, 0xff, 0xff]), "truncated JPEG marker");
    assert_eq!(error(&[0xff, 0xd8, 0xff, 0xff, 0xff, 0xe0, 9]), "truncated JPEG segment length");
    assert_eq!(error(&[0xff, 0xd8, 0xff, 0xe0, 0, 1]), "invalid JPEG segment length");
    assert_eq!(error(&[0xff, 0xd8, 0xff, 0xe0, 0, 9]), "invalid JPEG segment length");
    assert_eq!(
        error(&[0xff, 0xd8, 0xff, 0xc0, 0, 4, 8, 0]),
        "truncated JPEG frame header"
    );
    assert_eq!(error(&[0xff, 0xd8, 0xff, 0xd9, 0, 0]), "JPEG frame header not found");
    assert_eq!(error(&[0xff, 0xd8, 0xff, 0xe0, 0, 2]), "JPEG frame header not found");

    let frame = |factors: [u8; 3]| {
        let [y, cb, cr] = factors;
        vec![
            0xff, 0xd8, 0xff, 0x01, 0xff, 0xc2, 0, 17, 8, 0, 1, 0, 1, 3, 1, y, 0, 2, cb, 1, 3, cr, 1,
        ]
    };
    assert_eq!(jpeg_sampling(&frame([0x11, 0x11, 0x11])), Ok(Sampling::S444));
    assert_eq!(jpeg_sampling(&frame([0x22, 0x11, 0x11])), Ok(Sampling::Other));
    let gray = [0xff, 0xd8, 0xff, 0xc0, 0, 11, 8, 0, 1, 0, 1, 1, 1, 0x11, 0];
    assert_eq!(jpeg_sampling(&gray), Ok(Sampling::Other));
}

#[test]
fn refused_images_are_described() {
    let fixture = synthetic_photo("small", 16, 8);
    let codec = Codec::JpegEncoder;
    let encoded = encode(codec, &fixture, 90, no_turbojpeg).unwrap();
    let decoded = |pixels: Vec<u8>, dimensions| {
        Ok(DecodedRgba {
            pixels,
            dimensions,
        })
    };
    let error = |encoded: &[u8], decoded| examine(codec, &fixture, encoded, decoded).unwrap_err();
    assert_eq!(
        error(&encoded, Err("bad".to_owned())),
        "zune-jpeg cross-decode failed"
    );
    assert_eq!(error(&encoded, decoded(Vec::new(), None)), "JPEG has no dimensions");
    assert_eq!(
        error(&encoded, decoded(Vec::new(), Some((8, 16)))),
        "jpeg-encoder returned 8x16, expected 16x8"
    );
    assert_eq!(
        error(&encoded, decoded(vec![254; 512], Some((16, 8)))),
        "jpeg-encoder decoded with non-opaque alpha"
    );
    let opaque = fixture.rgba.clone();
    assert_eq!(
        error(b"none", decoded(opaque.clone(), Some((16, 8)))),
        "not a JPEG stream"
    );
    let gray = [0xff, 0xd8, 0xff, 0xc0, 0, 11, 8, 0, 1, 0, 1, 1, 1, 0x11, 0];
    assert_eq!(
        error(&gray, decoded(opaque.clone(), Some((16, 8)))),
        "jpeg-encoder emitted other instead of required 4:4:4"
    );
    let exact = examine(codec, &fixture, &encoded, decoded(opaque, Some((16, 8)))).unwrap();
    assert_eq!((exact.error.squared, exact.error.max_abs, exact.delta.total), (0, 0, 0));
    assert_eq!((exact.error.samples, exact.delta.samples), (16 * 8 * 3, 8 * 15 * 3));
}

#[test]
fn errors_are_summed_over_color_samples() {
    let source = [10, 20, 30, 0, 40, 50, 60, 0];
    let decoded = [13, 20, 26, 9, 40, 45, 60, 9, 1, 2];
    let error = rgb_error(&source, &decoded);
    assert_eq!(error.squared, 9 + 16 + 25);
    assert_eq!((error.samples, error.max_abs), (6, 5));
    // The steps are 30 and 27, 30 and 25, 30 and 34.
    let delta = neighbor_delta(&source, &decoded, 2);
    assert_eq!((delta.total, delta.samples), (3 + 5 + 4, 3));
    assert_eq!(neighbor_delta(&source, &decoded, 1).samples, 0);
}

#[test]
fn checksums_and_medians_are_exact() {
    let rgba: Vec<u8> = (0..40_000_u32).map(|i| (i % 251) as u8).collect();
    let mut expected = u64::from(100_u32) << 32 | 100;
    for byte in rgba.iter().step_by(4_099) {
        expected = expected.rotate_left(7) ^ u64::from(*byte);
    }
    expected ^= 40_000;
    assert_eq!(pixel_checksum(&PixelBuf::new(100, 100, rgba)), expected);
    assert_eq!(pixel_checksum(&PixelBuf::new(1, 2, Vec::new())), 1 << 32 | 2);
    assert_eq!(median(vec![5, 1, 9]), 5);
    assert_eq!(median(vec![7, 3, 3, 10]), 7);
    assert_eq!(median(vec![4]), 4);
}
