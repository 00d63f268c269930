//! Orientation and resizing of pixel buffers.

use viewr_core::resize::{apply_orient, downscale_to_fit, resize_exact, ResizeError};
use viewr_core::types::{Orient, PixelBuf};

fn pix(vals: &[u8]) -> PixelBuf {
    PixelBuf::new(2, 1, vals.to_vec())
}

fn labelled(width: u32, height: u32) -> PixelBuf {
    let rgba = (1..=width * height)
        .flat_map(|value| [value as u8, value as u8, value as u8, 255])
        .collect();
    PixelBuf::new(width, height, rgba)
}

fn labels(buf: &PixelBuf) -> Vec<u8> {
    buf.rgba().chunks_exact(4).map(|pixel| pixel[0]).collect()
}

/// The dimensions with a long edge of `max_edge`, rounded.
fn fitted(buf: &PixelBuf, max_edge: u32) -> (u32, u32) {
    let scale = f64::from(max_edge) / f64::from(buf.width.max(buf.height));
    (
        (f64::from(buf.width) * scale).round() as u32,
        (f64::from(buf.height) * scale).round() as u32,
    )
}

fn downscale(buf: PixelBuf, max_edge: u32) -> Result<PixelBuf, ResizeError> {
    let fitted = fitted(&buf, max_edge);
    downscale_to_fit(buf, max_edge, fitted)
}

#[test]
fn rotate_90_cw() {
    // (x, y) goes to (h - 1 - y, x): A(0, 0) stays and B(1, 0) goes below it.
    let out = apply_orient(pix(&[1, 1, 1, 1, 2, 2, 2, 2]), Orient::R90);
    assert_eq!((out.width, out.height), (1, 2));
    assert_eq!(out.rgba(), &[1, 1, 1, 1, 2, 2, 2, 2]);
}

#[test]
fn rotate_270_cw() {
    // (x, y) goes to (y, w - 1 - x): B(1, 0) comes first.
    let out = apply_orient(pix(&[1, 1, 1, 1, 2, 2, 2, 2]), Orient::R270);
    assert_eq!((out.width, out.height), (1, 2));
    assert_eq!(out.rgba(), &[2, 2, 2, 2, 1, 1, 1, 1]);
}

#[test]
fn rotate_180() {
    let out = apply_orient(pix(&[1, 1, 1, 1, 2, 2, 2, 2]), Orient::R180);
    assert_eq!((out.width, out.height), (2, 1));
    assert_eq!(out.rgba(), &[2, 2, 2, 2, 1, 1, 1, 1]);
}

#[test]
fn rectangular_rotations_have_expected_layout() {
    let source = labelled(3, 2); // [1 2 3] / [4 5 6]

    let r90 = apply_orient(source.clone(), Orient::R90);
    assert_eq!((r90.width, r90.height), (2, 3));
    assert_eq!(labels(&r90), vec![4, 1, 5, 2, 6, 3]);

    let r180 = apply_orient(source.clone(), Orient::R180);
    assert_eq!((r180.width, r180.height), (3, 2));
    assert_eq!(labels(&r180), vec![6, 5, 4, 3, 2, 1]);

    let r270 = apply_orient(source, Orient::R270);
    assert_eq!((r270.width, r270.height), (2, 3));
    assert_eq!(labels(&r270), vec![3, 6, 2, 5, 1, 4]);
}

#[test]
fn inverse_and_full_turn_rotations_restore_every_pixel() {
    for width in 0..=7 {
        for height in 0..=7 {
            let source = labelled(width, height);
            let restored =
                apply_orient(apply_orient(source.clone(), Orient::R90), Orient::R270);
            assert_eq!((restored.width, restored.height), (width, height));
            assert_eq!(restored.rgba(), source.rgba());

            let mut full_turn = source.clone();
            for _ in 0..4 {
                full_turn = apply_orient(full_turn, Orient::R90);
            }
            assert_eq!((full_turn.width, full_turn.height), (width, height));
            assert_eq!(full_turn.rgba(), source.rgba());
        }
    }
}

#[test]
fn no_op_orientation_and_downscale_preserve_input() {
    let source = labelled(20, 10);
    let oriented = apply_orient(source.clone(), Orient::R0);
    assert_eq!(oriented.rgba(), source.rgba());

    let fitted = downscale(source.clone(), 20).unwrap();
    assert_eq!((fitted.width, fitted.height), (20, 10));
    assert_eq!(fitted.rgba(), source.rgba());
}

#[test]
fn downscale_preserves_aspect_and_storage_invariants() {
    let fitted = downscale(labelled(40, 20), 13).unwrap();
    assert_eq!((fitted.width, fitted.height), (13, 7));
    assert_eq!(fitted.byte_len(), 13 * 7 * 4);

    let portrait = downscale(labelled(20, 40), 13).unwrap();
    assert_eq!((portrait.width, portrait.height), (7, 13));
    assert_eq!(portrait.byte_len(), 7 * 13 * 4);
}

#[test]
fn resize_rejects_malformed_pixel_storage() {
    let malformed = PixelBuf::new(2, 2, vec![0; 15]);
    assert!(resize_exact(malformed, 1, 1).is_err());
}

#[test]
fn large_quarter_turns_place_every_pixel() {
    let (width, height) = (300_u32, 260_u32);
    let rgba: Vec<u8> = (0..width * height)
        .flat_map(|p| [(p % 251) as u8, (p / 251 % 256) as u8, (p / 64_256) as u8, 255])
        .collect();
    let source = PixelBuf::try_new_opaque(width, height, rgba).unwrap();
    let pixel = |buf: &PixelBuf, x: u32, y: u32| {
        let at = ((y * buf.width + x) * 4) as usize;
        buf.rgba()[at..at + 4].to_vec()
    };
    let right = apply_orient(source.clone(), Orient::R90);
    let left = apply_orient(source.clone(), Orient::R270);
    assert_eq!((right.width, right.height), (height, width));
    assert!(right.is_opaque() && left.is_opaque());
    for y in 0..height {
        for x in 0..width {
            let original = pixel(&source, x, y);
            assert_eq!(pixel(&right, height - 1 - y, x), original);
            assert_eq!(pixel(&left, y, width - 1 - x), original);
        }
    }
}

#[test]
fn resized_flat_color_stays_flat() {
    let rgba: Vec<u8> = [40, 80, 120, 255].repeat(64 * 48);
    let resized = resize_exact(PixelBuf::new(64, 48, rgba), 31, 17).unwrap();
    assert_eq!((resized.width, resized.height), (31, 17));
    assert!(resized.is_opaque());
    assert_eq!(resized.rgba(), [40, 80, 120, 255].repeat(31 * 17));
}

#[test]
fn storage_that_does_not_match_the_dimensions_is_an_error() {
    let long = PixelBuf::new(2, 2, vec![0; 17]);
    let ResizeError::Fir(reason) = match resize_exact(long, 1, 1) {
        Ok(_) => panic!("accepted"),
        Err(error) => error,
    };
    assert!(!reason.is_empty());
    assert_eq!(ResizeError::Fir("bad".to_owned()).message(), "resize: bad");
}

#[test]
fn an_edge_never_vanishes() {
    let rgba = vec![255; 1000 * 4];
    let fitted = downscale_to_fit(PixelBuf::new(1000, 1, rgba), 10, (10, 0)).unwrap();
    assert_eq!((fitted.width, fitted.height), (10, 1));
}
