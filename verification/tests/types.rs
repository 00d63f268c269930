//! Orientations and pixel buffers.

use viewr_core::types::{Orient, PixelBuf};

#[test]
fn exif_orientation_mapping_covers_all_standard_values() {
    let cases = [
        (None, Orient::R0),
        (Some(1), Orient::R0),
        (Some(2), Orient::R0),
        (Some(3), Orient::R180),
        (Some(4), Orient::R180),
        (Some(5), Orient::R90),
        (Some(6), Orient::R90),
        (Some(7), Orient::R270),
        (Some(8), Orient::R270),
        (Some(9), Orient::R0),
    ];
    for (value, expected) in cases {
        assert_eq!(Orient::from_exif(value), expected, "EXIF {value:?}");
    }
}

#[test]
fn only_quarter_turns_swap_axes() {
    assert!(!Orient::R0.swaps_axes());
    assert!(Orient::R90.swaps_axes());
    assert!(!Orient::R180.swaps_axes());
    assert!(Orient::R270.swaps_axes());
}

#[test]
fn pixel_buffer_reports_storage_without_dumping_pixels() {
    let buf = PixelBuf::new(2, 1, vec![1; 8]);
    assert_eq!(buf.byte_len(), 8);
    assert_eq!(
        buf.debug_text(),
        "PixelBuf { width: 2, height: 1, bytes: 8 }"
    );
}

#[test]
fn opaque_provenance_is_validated_or_core_produced() {
    let unknown = PixelBuf::new(1, 1, vec![1, 2, 3, 255]);
    assert!(!unknown.is_opaque());

    let opaque =
        PixelBuf::try_new_opaque(1, 1, vec![1, 2, 3, 255]).expect("valid opaque pixel");
    assert!(opaque.is_opaque());
    assert!(opaque.clone().is_opaque());
    assert_eq!(opaque.rgba(), &[1, 2, 3, 255]);

    assert!(PixelBuf::try_new_opaque(1, 1, vec![1, 2, 3, 254]).is_none());
    assert!(PixelBuf::try_new_opaque(1, 1, vec![1, 2, 3]).is_none());
    assert!(PixelBuf::try_new_opaque(u32::MAX, u32::MAX, Vec::new()).is_none());

    assert!(PixelBuf::new_scanned(1, 1, vec![1, 2, 3, 255]).is_opaque());
    assert!(!PixelBuf::new_scanned(1, 1, vec![1, 2, 3, 0]).is_opaque());
    assert!(!PixelBuf::new_scanned(1, 1, vec![1, 2, 3]).is_opaque());
}
