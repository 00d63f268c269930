//! Metadata of raw containers.

use viewr_core::meta::{CaptureTimestamp, ContainerMetadata, FileMeta, Rational};
use viewr_core::types::Orient;

fn container() -> ContainerMetadata {
    ContainerMetadata {
        make: String::new(),
        model: String::new(),
        rating: None,
        lens_name: None,
        lens_model: None,
        orientation: None,
        iso_speed_ratings: None,
        iso_speed: None,
        recommended_exposure_index: None,
        exposure_time: None,
        fnumber: None,
        focal_length: None,
        date_time_original: None,
        sub_sec_time_original: None,
        offset_time_original: None,
        create_date: None,
        sub_sec_time_digitized: None,
        offset_time_digitized: None,
        timezone_offset: None,
    }
}

fn rational(n: u32, d: u32) -> Rational {
    Rational { n, d, tenths: format!("{:.1}", f64::from(n) / f64::from(d)) }
}

#[test]
fn malformed_zero_denominator_rationals_are_omitted() {
    let mut metadata = container();
    metadata.exposure_time = Some(rational(1, 0));
    metadata.fnumber = Some(rational(28, 0));
    metadata.focal_length = Some(rational(50, 0));

    let file = FileMeta::from_metadata(&metadata);

    assert_eq!(file.shutter, None);
    assert_eq!(file.aperture, None);
    assert_eq!(file.focal_mm, None);
}

#[test]
fn shutter_rationals_use_the_expected_display_forms() {
    for (rational, expected) in [
        (rational(1, 1_600), "1/1600"),
        (rational(2, 1), "2s"),
        (rational(3, 2), "1.5s"),
    ] {
        let mut metadata = container();
        metadata.exposure_time = Some(rational);

        assert_eq!(
            FileMeta::from_metadata(&metadata).shutter.as_deref(),
            Some(expected)
        );
    }
}

#[test]
fn capture_time_uses_the_original_matching_subseconds_and_offset() {
    let mut metadata = container();
    metadata.date_time_original = Some("2024:02:29 23:59:58".into());
    metadata.sub_sec_time_original = Some("125".into());
    metadata.offset_time_original = Some("-07:00".into());
    metadata.create_date = Some("2020:01:02 03:04:05".into());
    metadata.sub_sec_time_digitized = Some("999".into());
    metadata.offset_time_digitized = Some("+02:00".into());

    let file = FileMeta::from_metadata(&metadata);

    assert_eq!(
        file.captured.as_ref().map(CaptureTimestamp::to_text).as_deref(),
        Some("2024-02-29 23:59:58.125 -07:00")
    );
}

#[test]
fn malformed_original_capture_time_falls_back_without_mixing_triplets() {
    let mut metadata = container();
    metadata.date_time_original = Some("2024:02:30 12:00:00".into());
    metadata.sub_sec_time_original = Some("999".into());
    metadata.offset_time_original = Some("-07:00".into());
    metadata.create_date = Some("2023:12:31 01:02:03".into());
    metadata.sub_sec_time_digitized = Some("42".into());
    metadata.offset_time_digitized = Some("+05:30".into());

    let file = FileMeta::from_metadata(&metadata);

    assert_eq!(
        file.captured.as_ref().map(CaptureTimestamp::to_text).as_deref(),
        Some("2023-12-31 01:02:03.42 +05:30")
    );
}

#[test]
fn capture_time_does_not_infer_a_timezone_and_ignores_invalid_modifiers() {
    let mut metadata = container();
    metadata.date_time_original = Some("2024:01:02 03:04:05".into());
    metadata.sub_sec_time_original = Some("12not-digits".into());
    metadata.offset_time_original = Some("+99:00".into());

    let file = FileMeta::from_metadata(&metadata);

    assert_eq!(
        file.captured.as_ref().map(CaptureTimestamp::to_text).as_deref(),
        Some("2024-01-02 03:04:05")
    );
}

#[test]
fn iso_uses_modern_fallbacks_without_truncation() {
    let mut metadata = container();
    metadata.iso_speed = Some(204_800);
    assert_eq!(FileMeta::from_metadata(&metadata).iso, Some(204_800));

    metadata.iso_speed = None;
    metadata.recommended_exposure_index = Some(102_400);
    assert_eq!(FileMeta::from_metadata(&metadata).iso, Some(102_400));

    metadata.iso_speed_ratings = Some(6_400);
    assert_eq!(FileMeta::from_metadata(&metadata).iso, Some(6_400));
}

#[test]
fn display_texts_are_trimmed_and_formatted() {
    let mut metadata = container();
    metadata.make = " Sony".into();
    metadata.model = "A7 ".into();
    metadata.lens_model = Some("  FE 50mm \u{a0}".into());
    metadata.fnumber = Some(rational(63, 10));
    metadata.focal_length = Some(rational(50, 1));
    metadata.orientation = Some(6);
    metadata.rating = Some(3);

    let file = FileMeta::from_metadata(&metadata);

    assert_eq!(file.camera, "Sony A7");
    assert_eq!(file.lens.as_deref(), Some("FE 50mm"));
    assert_eq!(file.aperture.as_deref(), Some("f/6.3"));
    assert_eq!(file.focal_mm, Some((50, 1)));
    assert_eq!(file.orient, Orient::R90);
    assert_eq!(file.rating, Some(3));

    metadata.lens_name = Some("   ".into());
    assert_eq!(FileMeta::from_metadata(&metadata).lens, None);
}

#[test]
fn legacy_hours_fill_in_a_missing_offset_only() {
    let mut metadata = container();
    metadata.date_time_original = Some("2024:01:02 03:04:05".into());
    metadata.timezone_offset = Some(vec![-3, 9]);
    let text = |metadata: &ContainerMetadata| {
        FileMeta::from_metadata(metadata).captured.map(|time| time.to_text())
    };
    assert_eq!(text(&metadata).as_deref(), Some("2024-01-02 03:04:05 -03:00"));

    metadata.offset_time_original = Some("+05:45".into());
    assert_eq!(text(&metadata).as_deref(), Some("2024-01-02 03:04:05 +05:45"));

    metadata.offset_time_original = None;
    metadata.timezone_offset = Some(vec![24]);
    assert_eq!(text(&metadata).as_deref(), Some("2024-01-02 03:04:05"));
}

#[test]
fn exif_texts_may_be_padded_with_nul_and_spaces() {
    let time = CaptureTimestamp::from_exif_parts(
        " 2024:02:29 23:59:58\0",
        Some("07\0"),
        Some(" -00:30"),
    )
    .unwrap();
    assert_eq!(time.to_text(), "2024-02-29 23:59:58.07 -00:30");
    assert!(CaptureTimestamp::from_exif_parts("2023:02:29 00:00:00", None, None).is_none());
    assert!(CaptureTimestamp::from_exif_parts("2024-01-01 00:00:00", None, None).is_none());
    assert!(CaptureTimestamp::from_exif_parts("", None, None).is_none());
}

#[test]
fn offsets_and_subseconds_have_bounds() {
    let text = |subsecond, offset| {
        CaptureTimestamp::from_exif_parts("2024:01:02 03:04:05", Some(subsecond), Some(offset))
            .unwrap()
            .to_text()
    };
    assert_eq!(text("123456789", "+23:59"), "2024-01-02 03:04:05.123456789 +23:59");
    assert_eq!(text("1234567890", "+24:00"), "2024-01-02 03:04:05");
    assert_eq!(text("", "+12:60"), "2024-01-02 03:04:05");
    assert_eq!(text("x", "12:30"), "2024-01-02 03:04:05");
    assert_eq!(text("0", "+1\u{e9}:0"), "2024-01-02 03:04:05.0");
}

#[test]
fn plain_dates_are_written_as_they_were_recorded() {
    let text = |date: &str| {
        CaptureTimestamp::from_exif_parts(date, None, None).map(|time| time.to_text())
    };
    assert_eq!(text("0000:01:01 00:00:00").as_deref(), Some("0000-01-01 00:00:00"));
    assert_eq!(text("9999:12:31 23:59:59").as_deref(), Some("9999-12-31 23:59:59"));
    assert_eq!(text("2023:02:29 12:00:00"), None);
    assert_eq!(text("2023:02:28 24:00:00"), None);

    let mut metadata = container();
    metadata.create_date = Some("1999:07:08 09:10:11".into());
    assert_eq!(
        FileMeta::from_metadata(&metadata).captured.map(|time| time.to_text()).as_deref(),
        Some("1999-07-08 09:10:11")
    );
    metadata.date_time_original = Some("2001:13:01 00:00:00".into());
    assert_eq!(
        FileMeta::from_metadata(&metadata).captured.map(|time| time.to_text()).as_deref(),
        Some("1999-07-08 09:10:11")
    );
}
