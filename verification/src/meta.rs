//! Per-file metadata extracted from the raw container (no pixel decode).

use vstd::prelude::*;

use crate::text::{decimal, digit_char, push_decimal, digits_value, law_decimal_digits_read_as_the_number};
use crate::types::Orient;

verus! {

// ---------------------------------------------------------------------------
// Text
// ---------------------------------------------------------------------------

/// Whether a character is white space.
pub uninterp spec fn whitespace(c: char) -> bool;

/// Wraps `char::is_whitespace` of the standard library. The result depends on
/// the character alone; among the ASCII characters exactly tab, line feed,
/// vertical tab, form feed, carriage return and space are white space.
#[verifier::external_body]
fn is_whitespace(c: char) -> (space: bool)
    ensures
        space == whitespace(c),
        (c as int) < 128 ==> space == (c as int == 32 || 9 <= c as int <= 13),
{
    c.is_whitespace()
}

/// A text without padding at its ends. NUL counts as padding where `nul` is
/// set.
pub open spec fn trimmed(text: Seq<char>, nul: bool) -> Seq<char>
    decreases text.len(),
{
    if text.len() == 0 {
        text
    } else if is_padding(text[0], nul) {
        trimmed(text.skip(1), nul)
    } else if is_padding(text.last(), nul) {
        trimmed(text.drop_last(), nul)
    } else {
        text
    }
}

/// Whether a character is white space, or NUL where that counts too.
pub open spec fn is_padding(c: char, nul: bool) -> bool {
    whitespace(c) || (nul && c == '\0')
}

fn padding(c: char, nul: bool) -> (pad: bool)
    ensures
        pad == is_padding(c, nul),
{
    is_whitespace(c) || (nul && c == '\0')
}

fn trim_text(text: &str, nul: bool) -> (kept: &str)
    ensures
        kept@ == trimmed(text@, nul),
{
    let len: usize = text.unicode_len();
    let mut first: usize = 0;
    let mut end: usize = len;
    assert(text@.subrange(0, len as int) =~= text@);
    while first < end && padding(text.get_char(first), nul)
        invariant
            first <= end == text@.len(),
            trimmed(text@, nul) == trimmed(text@.subrange(first as int, end as int), nul),
        decreases end - first,
    {
        assert(text@.subrange(first as int, end as int).skip(1) =~= text@.subrange(
            first + 1,
            end as int,
        ));
        first += 1;
    }
    while first < end && padding(text.get_char(end - 1), nul)
        invariant
            first <= end <= text@.len(),
            first < end ==> !is_padding(text@[first as int], nul),
            trimmed(text@, nul) == trimmed(text@.subrange(first as int, end as int), nul),
        decreases end - first,
    {
        assert(text@.subrange(first as int, end as int).drop_last() =~= text@.subrange(
            first as int,
            end - 1,
        ));
        end -= 1;
    }
    text.substring_char(first, end)
}

fn trim_exif_text(value: &str) -> (kept: &str)
    ensures
        kept@ == trimmed(value@, true),
{
    trim_text(value, true)
}

/// Whether a character is an ASCII digit.
pub open spec fn is_digit(c: char) -> bool {
    48 <= c as int <= 57
}

/// The value of an ASCII digit.
pub open spec fn digit_value(c: char) -> int {
    c as int - 48
}

/// The subsecond digits of an EXIF text: one to nine of them, or nothing.
pub open spec fn subsecond_digits(value: Seq<char>) -> Option<Seq<char>> {
    let digits = trimmed(value, true);
    if 0 < digits.len() <= 9 && forall|i: int|
        0 <= i < digits.len() ==> is_digit(#[trigger] digits[i]) {
        Some(digits)
    } else {
        None
    }
}

fn normalize_subsecond(value: &str) -> (digits: Option<String>)
    ensures
        match digits {
            Some(kept) => subsecond_digits(value@) == Some(kept@),
            None => subsecond_digits(value@) is None,
        },
{
    let kept = trim_exif_text(value);
    let len: usize = kept.unicode_len();
    if len == 0 || len > 9 {
        return None;
    }
    let mut i: usize = 0;
    while i < len
        invariant
            i <= len == kept@.len(),
            kept@ == trimmed(value@, true),
            forall|k: int| 0 <= k < i ==> is_digit(#[trigger] kept@[k]),
        decreases len - i,
    {
        let c: char = kept.get_char(i);
        if !(c >= '0' && c <= '9') {
            assert(!is_digit(kept@[i as int]));
            return None;
        }
        i += 1;
    }
    Some(kept.to_owned())
}

// ---------------------------------------------------------------------------
// UTC offsets
// ---------------------------------------------------------------------------

/// Whether a number of seconds is a UTC offset: less than a day either way.
pub open spec fn is_offset(seconds: int) -> bool {
    -86_400 < seconds < 86_400
}

/// Wraps `chrono::FixedOffset::east_opt`: seconds east of UTC are an offset if
/// and only if they are less than a day either way.
#[verifier::external_body]
fn checked_offset(seconds: i32) -> (offset: Option<i32>)
    ensures
        offset == if is_offset(seconds as int) {
            Some(seconds)
        } else {
            None
        },
{
    chrono::FixedOffset::east_opt(seconds).map(|offset| offset.local_minus_utc())
}

/// Two decimal digits.
pub open spec fn two_digits(value: int) -> Seq<char> {
    seq![digit_char((value / 10) as nat), digit_char((value % 10) as nat)]
}

/// A UTC offset as sign, hours and minutes, with seconds only where there are
/// some.
pub open spec fn offset_chars(seconds: int) -> Seq<char> {
    let size = if seconds < 0 {
        -seconds
    } else {
        seconds
    };
    let clock = seq![
        if seconds < 0 {
            '-'
        } else {
            '+'
        },
    ] + two_digits(size / 3600) + seq![':'] + two_digits(size / 60 % 60);
    if size % 60 == 0 {
        clock
    } else {
        clock + seq![':'] + two_digits(size % 60)
    }
}

/// Wraps the display form of `chrono::FixedOffset`: a sign, hours and minutes
/// in two digits each, and seconds only where they are not zero.
#[verifier::external_body]
fn offset_text(seconds: i32) -> (text: String)
    requires
        is_offset(seconds as int),
    ensures
        text@ == offset_chars(seconds as int),
{
    match chrono::FixedOffset::east_opt(seconds) {
        Some(offset) => format!("{offset}"),
        None => String::new(),
    }
}

/// The offset in seconds of an EXIF text such as `+05:30`.
pub open spec fn exif_offset(value: Seq<char>) -> Option<int> {
    let text = trimmed(value, true);
    if text.len() == 6 && (text[0] == '+' || text[0] == '-') && text[3] == ':' && is_digit(text[1])
        && is_digit(text[2]) && is_digit(text[4]) && is_digit(text[5]) {
        let hours = digit_value(text[1]) * 10 + digit_value(text[2]);
        let minutes = digit_value(text[4]) * 10 + digit_value(text[5]);
        if hours > 23 || minutes > 59 {
            None
        } else if text[0] == '+' {
            Some(hours * 3600 + minutes * 60)
        } else {
            Some(-(hours * 3600 + minutes * 60))
        }
    } else {
        None
    }
}

fn digit(c: char) -> (value: Option<i32>)
    ensures
        match value {
            Some(v) => is_digit(c) && v == digit_value(c),
            None => !is_digit(c),
        },
{
    if c >= '0' && c <= '9' {
        Some((c as u32 - 48) as i32)
    } else {
        None
    }
}

fn two_digit_number(text: &str, first: usize) -> (number: Option<i32>)
    requires
        first < 100,
        first + 1 < text@.len(),
    ensures
        match number {
            Some(n) => is_digit(text@[first as int]) && is_digit(text@[first + 1]) && n
                == digit_value(text@[first as int]) * 10 + digit_value(text@[first + 1]),
            None => !(is_digit(text@[first as int]) && is_digit(text@[first + 1])),
        },
{
    match (digit(text.get_char(first)), digit(text.get_char(first + 1))) {
        (Some(tens), Some(ones)) => Some(tens * 10 + ones),
        _ => None,
    }
}

fn parse_exif_offset(value: &str) -> (offset: Option<i32>)
    ensures
        match offset {
            Some(seconds) => exif_offset(value@) == Some(seconds as int) && is_offset(
                seconds as int,
            ),
            None => exif_offset(value@) is None,
        },
{
    let value = trim_exif_text(value);
    if value.unicode_len() != 6 {
        return None;
    }
    let sign: char = value.get_char(0);
    if value.get_char(3) != ':' || !(sign == '+' || sign == '-') {
        return None;
    }
    let (hours, minutes): (i32, i32) = match (
        two_digit_number(value, 1),
        two_digit_number(value, 4),
    ) {
        (Some(hours), Some(minutes)) => (hours, minutes),
        _ => return None,
    };
    if hours > 23 || minutes > 59 {
        return None;
    }
    let seconds: i32 = hours * 3600 + minutes * 60;
    if sign == '+' {
        checked_offset(seconds)
    } else {
        checked_offset(-seconds)
    }
}

// ---------------------------------------------------------------------------
// Calendar
// ---------------------------------------------------------------------------

/// A date and a time of day without a time zone.
#[derive(Debug, Clone, Copy, PartialEq, Eq, Structural)]
pub struct LocalTime {
    pub year: i32,
    pub month: u32,
    pub day: u32,
    pub hour: u32,
    pub minute: u32,
    pub second: u32,
    /// Nanoseconds; a leap second counts a second more.
    pub nanosecond: u32,
}

/// The fields of a date and time, from the year down to the nanosecond.
pub type TimeFields = (int, int, int, int, int, int, int);

impl LocalTime {
    /// The fields, from the year down to the nanosecond.
    pub open spec fn fields(self) -> TimeFields {
        (
            self.year as int,
            self.month as int,
            self.day as int,
            self.hour as int,
            self.minute as int,
            self.second as int,
            self.nanosecond as int,
        )
    }
}

/// Days of a month in the Gregorian calendar.
pub open spec fn days_in_month(year: int, month: int) -> int {
    if month == 2 {
        if year % 4 == 0 && (year % 100 != 0 || year % 400 == 0) {
            29
        } else {
            28
        }
    } else if month == 4 || month == 6 || month == 9 || month == 11 {
        30
    } else {
        31
    }
}

/// Whether a day exists.
pub open spec fn is_date(year: int, month: int, day: int) -> bool {
    1 <= month <= 12 && 1 <= day <= days_in_month(year, month)
}

/// The number that `count` digits of a text write.
pub open spec fn number_at(text: Seq<char>, first: int, count: int) -> int
    decreases count,
{
    if count <= 0 {
        0
    } else {
        10 * number_at(text, first, count - 1) + digit_value(text[first + count - 1])
    }
}

/// Whether a text has the shape `YYYY:MM:DD HH:MM:SS` with digits throughout.
pub open spec fn has_exif_shape(text: Seq<char>) -> bool {
    &&& text.len() == 19
    &&& forall|i: int|
        0 <= i < 19 && i != 4 && i != 7 && i != 10 && i != 13 && i != 16 ==> is_digit(
            #[trigger] text[i],
        )
    &&& text[4] == ':' && text[7] == ':' && text[10] == ' ' && text[13] == ':' && text[16] == ':'
}

/// What a text of the EXIF shape writes, where it is a date and a time of day
/// and not a leap second.
pub open spec fn exif_shape_fields(text: Seq<char>) -> Option<TimeFields> {
    let year = number_at(text, 0, 4);
    let month = number_at(text, 5, 2);
    let day = number_at(text, 8, 2);
    let hour = number_at(text, 11, 2);
    let minute = number_at(text, 14, 2);
    let second = number_at(text, 17, 2);
    if is_date(year, month, day) && hour < 24 && minute < 60 && second < 60 {
        Some((year, month, day, hour, minute, second, 0))
    } else {
        None
    }
}

/// The date and time that a text writes in the EXIF notation.
pub uninterp spec fn exif_date(text: Seq<char>) -> Option<TimeFields>;

/// Wraps `chrono::NaiveDateTime::parse_from_str` with the format
/// `%Y:%m:%d %H:%M:%S`. The result depends on the text alone. A text of the
/// exact shape `YYYY:MM:DD HH:MM:SS`, digits throughout, gives the fields that
/// it writes, and nothing where they are no date or time of day; texts that
/// write second 60 are left open, and so are the shorter and padded texts that
/// the notation also admits.
#[verifier::external_body]
fn parse_local(text: &str) -> (local: Option<LocalTime>)
    ensures
        match local {
            Some(time) => exif_date(text@) == Some(time.fields()),
            None => exif_date(text@) is None,
        },
        has_exif_shape(text@) && number_at(text@, 17, 2) != 60 ==> match local {
            Some(time) => exif_shape_fields(text@) == Some(time.fields()),
            None => exif_shape_fields(text@) is None,
        },
{
    let time = chrono::NaiveDateTime::parse_from_str(text, "%Y:%m:%d %H:%M:%S").ok()?;
    Some(LocalTime {
        year: chrono::Datelike::year(&time),
        month: chrono::Datelike::month(&time),
        day: chrono::Datelike::day(&time),
        hour: chrono::Timelike::hour(&time),
        minute: chrono::Timelike::minute(&time),
        second: chrono::Timelike::second(&time),
        nanosecond: chrono::Timelike::nanosecond(&time),
    })
}

/// Four decimal digits.
pub open spec fn four_digits(value: int) -> Seq<char> {
    two_digits(value / 100) + two_digits(value % 100)
}

/// The text `YYYY-MM-DD HH:MM:SS` of the fields of a date and time.
pub open spec fn plain_local_chars(time: TimeFields) -> Seq<char> {
    four_digits(time.0) + seq!['-'] + two_digits(time.1) + seq!['-'] + two_digits(time.2)
        + seq![' '] + two_digits(time.3) + seq![':'] + two_digits(time.4) + seq![':'] + two_digits(
        time.5,
    )
}

/// Whether fields are a date between the years 0 and 9999 and a time of day
/// that is no leap second.
pub open spec fn has_plain_form(time: TimeFields) -> bool {
    &&& 0 <= time.0 <= 9999
    &&& is_date(time.0, time.1, time.2)
    &&& 0 <= time.3 < 24 && 0 <= time.4 < 60 && 0 <= time.5 < 60
    &&& 0 <= time.6 < 1_000_000_000
}

/// The display form of a date and time.
pub uninterp spec fn local_chars(time: TimeFields) -> Seq<char>;

/// Wraps `chrono::NaiveDateTime::format` with the format `%Y-%m-%d %H:%M:%S`.
/// The result depends on the fields alone. A date between the years 0 and 9999
/// whose second is not a leap second reads `YYYY-MM-DD HH:MM:SS`; how other
/// years and leap seconds read is left open.
#[verifier::external_body]
fn local_text(time: LocalTime) -> (text: String)
    ensures
        text@ == local_chars(time.fields()),
        has_plain_form(time.fields()) ==> text@ == plain_local_chars(time.fields()),
{
    let local = chrono::NaiveDate::from_ymd_opt(time.year, time.month, time.day).and_then(|date| {
        date.and_hms_nano_opt(time.hour, time.minute, time.second, time.nanosecond)
    });
    match local {
        Some(local) => format!("{}", local.format("%Y-%m-%d %H:%M:%S")),
        None => String::new(),
    }
}

// ---------------------------------------------------------------------------
// Capture time
// ---------------------------------------------------------------------------

/// Camera-recorded local capture time with an optional recorded UTC offset.
///
/// A missing offset stays unknown. No time zone is ever assigned to a timestamp
/// that the camera recorded without one.
#[derive(Debug, Clone, PartialEq, Eq)]
pub struct CaptureTimestamp {
    local: LocalTime,
    subsecond: Option<String>,
    offset: Option<i32>,
}

/// What a [`CaptureTimestamp`] holds.
#[verifier::ext_equal]
pub struct TimestampModel {
    pub local: TimeFields,
    pub subsecond: Option<Seq<char>>,
    pub offset: Option<int>,
}

impl View for CaptureTimestamp {
    type V = TimestampModel;

    closed spec fn view(&self) -> TimestampModel {
        TimestampModel {
            local: self.local.fields(),
            subsecond: match self.subsecond {
                Some(digits) => Some(digits@),
                None => None,
            },
            offset: match self.offset {
                Some(seconds) => Some(seconds as int),
                None => None,
            },
        }
    }
}

/// The timestamp of one date with its own modifiers. Invalid modifiers are
/// omitted.
pub open spec fn timestamp(
    local: TimeFields,
    subsecond: Option<Seq<char>>,
    offset: Option<Seq<char>>,
) -> TimestampModel {
    TimestampModel {
        local,
        subsecond: match subsecond {
            Some(text) => subsecond_digits(text),
            None => None,
        },
        offset: match offset {
            Some(text) => exif_offset(text),
            None => None,
        },
    }
}

/// The characters of an optional text.
pub open spec fn opt_chars(text: Option<&str>) -> Option<Seq<char>> {
    match text {
        Some(text) => Some(text@),
        None => None,
    }
}

/// The timestamp of an EXIF date/subsecond/offset triplet, if its date is one.
pub open spec fn exif_timestamp(
    local: Seq<char>,
    subsecond: Option<Seq<char>>,
    offset: Option<Seq<char>>,
) -> Option<TimestampModel> {
    match exif_date(trimmed(local, true)) {
        Some(fields) => Some(timestamp(fields, subsecond, offset)),
        None => None,
    }
}

/// A timestamp with the legacy whole-hour offset where it recorded none.
pub open spec fn with_hours(time: TimestampModel, hours: Option<i16>) -> TimestampModel {
    match (time.offset, hours) {
        (None, Some(h)) => TimestampModel {
            offset: if is_offset(h * 3600) {
                Some(h * 3600)
            } else {
                None
            },
            ..time
        },
        _ => time,
    }
}

/// The display form of the subseconds and the offset of a timestamp, as far as
/// they were recorded.
pub open spec fn modifier_chars(time: TimestampModel) -> Seq<char> {
    (match time.subsecond {
        Some(digits) => seq!['.'] + digits,
        None => seq![],
    }) + (match time.offset {
        Some(seconds) => seq![' '] + offset_chars(seconds),
        None => seq![],
    })
}

/// The display form of a timestamp: date and time, subseconds and offset.
pub open spec fn timestamp_chars(time: TimestampModel) -> Seq<char> {
    local_chars(time.local) + modifier_chars(time)
}

impl CaptureTimestamp {
    /// Whether the recorded offset, if any, is less than a day.
    pub open spec fn wf(&self) -> bool {
        self@.offset matches Some(seconds) ==> is_offset(seconds)
    }

    /// Parses one matching EXIF date/subsecond/offset triplet.
    ///
    /// The date must use the EXIF `YYYY:MM:DD HH:MM:SS` representation.
    /// Invalid optional modifiers are omitted without invalidating the date.
    pub fn from_exif_parts(
        local: &str,
        subsecond: Option<&str>,
        offset: Option<&str>,
    ) -> (parsed: Option<Self>)
        ensures
            match parsed {
                Some(time) => time.wf() && exif_timestamp(
                    local@,
                    opt_chars(subsecond),
                    opt_chars(offset),
                ) == Some(time@),
                None => exif_timestamp(local@, opt_chars(subsecond), opt_chars(offset)) is None,
            },
            ({
                let date = trimmed(local@, true);
                has_exif_shape(date) && number_at(date, 17, 2) != 60 ==> match parsed {
                    Some(time) => exif_shape_fields(date) == Some(time@.local),
                    None => exif_shape_fields(date) is None,
                }
            }),
    {
        match parse_local(trim_exif_text(local)) {
            Some(time) => Some(Self::from_local(time, subsecond, offset)),
            None => None,
        }
    }

    /// Combines a date that was already read with its own modifiers.
    pub fn from_local(
        local: LocalTime,
        subsecond: Option<&str>,
        offset: Option<&str>,
    ) -> (time: Self)
        ensures
            time.wf(),
            time@ == timestamp(local.fields(), opt_chars(subsecond), opt_chars(offset)),
    {
        let subsecond: Option<String> = match subsecond {
            Some(text) => normalize_subsecond(text),
            None => None,
        };
        let offset: Option<i32> = match offset {
            Some(text) => parse_exif_offset(text),
            None => None,
        };
        CaptureTimestamp { local, subsecond, offset }
    }

    fn with_legacy_offset(self, hours: Option<i16>) -> (time: Self)
        requires
            self.wf(),
        ensures
            time.wf(),
            time@ == with_hours(self@, hours),
    {
        let mut time = self;
        if time.offset.is_none() {
            time.offset = match hours {
                Some(hours) => checked_offset(hours as i32 * 3600),
                None => None,
            };
        }
        time
    }

    /// Renders the date and time with the recorded subseconds and offset.
    pub fn to_text(&self) -> (text: String)
        requires
            self.wf(),
        ensures
            text@ == timestamp_chars(self@),
            has_plain_form(self@.local) ==> text@ == plain_local_chars(self@.local)
                + modifier_chars(self@),
    {
        let mut text = local_text(self.local);
        let ghost date = text@;
        proof {
            reveal_strlit(".");
            reveal_strlit(" ");
        }
        if let Some(subsecond) = &self.subsecond {
            text.append(".");
            text.append(subsecond.as_str());
        }
        if let Some(offset) = self.offset {
            text.append(" ");
            text.append(offset_text(offset).as_str());
        }
        assert(text@ =~= date + modifier_chars(self@));
        text
    }
}

// ---------------------------------------------------------------------------
// File metadata
// ---------------------------------------------------------------------------

/// A rational of the raw container. `tenths` is its quotient in decimal
/// notation with one digit after the point, rendered by the reader of the
/// container.
#[derive(Debug, Clone, PartialEq, Eq)]
pub struct Rational {
    pub n: u32,
    pub d: u32,
    pub tenths: String,
}

/// What the viewer reads of a raw container.
#[derive(Debug, Clone, PartialEq, Eq)]
pub struct ContainerMetadata {
    pub make: String,
    pub model: String,
    pub rating: Option<u32>,
    /// Lens name from decoded lens metadata.
    pub lens_name: Option<String>,
    /// EXIF LensModel.
    pub lens_model: Option<String>,
    pub orientation: Option<u16>,
    pub iso_speed_ratings: Option<u16>,
    pub iso_speed: Option<u32>,
    pub recommended_exposure_index: Option<u32>,
    pub exposure_time: Option<Rational>,
    pub fnumber: Option<Rational>,
    pub focal_length: Option<Rational>,
    pub date_time_original: Option<String>,
    pub sub_sec_time_original: Option<String>,
    pub offset_time_original: Option<String>,
    pub create_date: Option<String>,
    pub sub_sec_time_digitized: Option<String>,
    pub offset_time_digitized: Option<String>,
    /// Legacy whole-hour time zone offsets.
    pub timezone_offset: Option<Vec<i16>>,
}

/// Compact UI-facing metadata derived from container metadata.
#[derive(Debug, Clone)]
pub struct FileMeta {
    /// Display rotation derived from EXIF orientation.
    pub orient: Orient,
    /// In-camera rating, if the body wrote one (lowest precedence source).
    pub rating: Option<u32>,
    /// Trimmed camera make and model.
    pub camera: String,
    /// Lens name from decoded lens metadata, falling back to EXIF LensModel.
    pub lens: Option<String>,
    /// ISO speed rating.
    pub iso: Option<u32>,
    /// e.g. "1/1600"
    pub shutter: Option<String>,
    /// e.g. "f/6.3"
    pub aperture: Option<String>,
    /// Focal length in millimetres, as numerator and denominator.
    pub focal_mm: Option<(u32, u32)>,
    /// Validated EXIF capture time, preserving an unknown timezone as unknown.
    pub captured: Option<CaptureTimestamp>,
}

/// The characters of an optional owned text.
pub open spec fn opt_string(text: Option<String>) -> Option<Seq<char>> {
    match text {
        Some(text) => Some(text@),
        None => None,
    }
}

/// The model of an optional timestamp.
pub open spec fn opt_timestamp(time: Option<CaptureTimestamp>) -> Option<TimestampModel> {
    match time {
        Some(time) => Some(time@),
        None => None,
    }
}

/// The lens of a container: the decoded name where there is one, else the EXIF
/// model, without padding; an empty one counts as unknown.
pub open spec fn lens_chars(name: Option<Seq<char>>, model: Option<Seq<char>>) -> Option<
    Seq<char>,
> {
    let chosen = match name {
        Some(name) => Some(name),
        None => model,
    };
    match chosen {
        Some(lens) => if trimmed(lens, false).len() == 0 {
            None
        } else {
            Some(trimmed(lens, false))
        },
        None => None,
    }
}

/// The ISO speed of a container: the classic rating, else the modern speed,
/// else the recommended exposure index.
pub open spec fn iso_of(md: ContainerMetadata) -> Option<u32> {
    match (md.iso_speed_ratings, md.iso_speed) {
        (Some(rating), _) => Some(rating as u32),
        (None, Some(speed)) => Some(speed),
        (None, None) => md.recommended_exposure_index,
    }
}

/// The display form of an exposure time; a zero denominator shows none.
pub open spec fn shutter_chars(time: Option<Rational>) -> Option<Seq<char>> {
    match time {
        Some(r) => if r.d == 0 {
            None
        } else if r.n == 1 {
            Some("1/"@ + decimal(r.d as nat))
        } else if r.d == 1 {
            Some(decimal(r.n as nat) + "s"@)
        } else {
            Some(r.tenths@ + "s"@)
        },
        None => None,
    }
}

/// The display form of an aperture; a zero denominator shows none.
pub open spec fn aperture_chars(fnumber: Option<Rational>) -> Option<Seq<char>> {
    match fnumber {
        Some(r) => if r.d == 0 {
            None
        } else {
            Some("f/"@ + r.tenths@)
        },
        None => None,
    }
}

/// The focal length; a zero denominator gives none.
pub open spec fn focal_of(length: Option<Rational>) -> Option<(u32, u32)> {
    match length {
        Some(r) => if r.d == 0 {
            None
        } else {
            Some((r.n, r.d))
        },
        None => None,
    }
}

/// The first legacy time zone hour.
pub open spec fn legacy_hours(md: ContainerMetadata) -> Option<i16> {
    match md.timezone_offset {
        Some(hours) => if hours@.len() > 0 {
            Some(hours@[0])
        } else {
            None
        },
        None => None,
    }
}

/// The timestamp of an optional date with its own modifiers.
pub open spec fn triplet(
    date: Option<Seq<char>>,
    subsecond: Option<Seq<char>>,
    offset: Option<Seq<char>>,
) -> Option<TimestampModel> {
    match date {
        Some(date) => exif_timestamp(date, subsecond, offset),
        None => None,
    }
}

/// Whether a date, where there is one, has the exact EXIF shape and does not
/// write second 60.
pub open spec fn is_plain_date(date: Option<Seq<char>>) -> bool {
    date matches Some(text) ==> has_exif_shape(trimmed(text, true)) && number_at(
        trimmed(text, true),
        17,
        2,
    ) != 60
}

/// The timestamp that an optional date of the exact EXIF shape writes, with its
/// own modifiers.
pub open spec fn plain_triplet(
    date: Option<Seq<char>>,
    subsecond: Option<Seq<char>>,
    offset: Option<Seq<char>>,
) -> Option<TimestampModel> {
    match date {
        Some(text) => match exif_shape_fields(trimmed(text, true)) {
            Some(fields) => Some(timestamp(fields, subsecond, offset)),
            None => None,
        },
        None => None,
    }
}

/// The capture time that the dates of a container write: that of the original
/// date where it exists, else that of the digitized one.
pub open spec fn plain_captured_of(md: ContainerMetadata) -> Option<TimestampModel> {
    let original = plain_triplet(
        opt_string(md.date_time_original),
        opt_string(md.sub_sec_time_original),
        opt_string(md.offset_time_original),
    );
    let chosen = match original {
        Some(time) => Some(time),
        None => plain_triplet(
            opt_string(md.create_date),
            opt_string(md.sub_sec_time_digitized),
            opt_string(md.offset_time_digitized),
        ),
    };
    match chosen {
        Some(time) => Some(with_hours(time, legacy_hours(md))),
        None => None,
    }
}

/// Whether the dates that decide a container's capture time have the exact
/// EXIF shape: the original one, and the digitized one where the original is
/// missing or no date.
pub open spec fn has_plain_dates(md: ContainerMetadata) -> bool {
    let original = opt_string(md.date_time_original);
    &&& is_plain_date(original)
    &&& plain_triplet(original, None, None) is Some || is_plain_date(opt_string(md.create_date))
}

/// The capture time of a container: the original triplet where its date is
/// valid, else the digitized one. Modifiers of one are never mixed into the
/// other.
pub open spec fn captured_of(md: ContainerMetadata) -> Option<TimestampModel> {
    let original = triplet(
        opt_string(md.date_time_original),
        opt_string(md.sub_sec_time_original),
        opt_string(md.offset_time_original),
    );
    let chosen = match original {
        Some(time) => Some(time),
        None => triplet(
            opt_string(md.create_date),
            opt_string(md.sub_sec_time_digitized),
            opt_string(md.offset_time_digitized),
        ),
    };
    match chosen {
        Some(time) => Some(with_hours(time, legacy_hours(md))),
        None => None,
    }
}

fn borrow_text(text: &Option<String>) -> (borrowed: Option<&str>)
    ensures
        opt_chars(borrowed) == opt_string(*text),
{
    match text {
        Some(text) => Some(text.as_str()),
        None => None,
    }
}

fn read_triplet(
    date: &Option<String>,
    subsecond: &Option<String>,
    offset: &Option<String>,
) -> (time: Option<CaptureTimestamp>)
    ensures
        time matches Some(t) ==> t.wf(),
        opt_timestamp(time) == triplet(
            opt_string(*date),
            opt_string(*subsecond),
            opt_string(*offset),
        ),
        is_plain_date(opt_string(*date)) ==> opt_timestamp(time) == plain_triplet(
            opt_string(*date),
            opt_string(*subsecond),
            opt_string(*offset),
        ),
{
    match date {
        Some(date) => CaptureTimestamp::from_exif_parts(
            date.as_str(),
            borrow_text(subsecond),
            borrow_text(offset),
        ),
        None => None,
    }
}

fn read_lens(name: &Option<String>, model: &Option<String>) -> (lens: Option<String>)
    ensures
        opt_string(lens) == lens_chars(opt_string(*name), opt_string(*model)),
{
    let chosen: Option<&str> = match name {
        Some(name) => Some(name.as_str()),
        None => borrow_text(model),
    };
    match chosen {
        Some(lens) => {
            let kept = trim_text(lens, false);
            if kept.unicode_len() == 0 {
                None
            } else {
                Some(kept.to_owned())
            }
        },
        None => None,
    }
}

fn read_shutter(time: &Option<Rational>) -> (shutter: Option<String>)
    ensures
        opt_string(shutter) == shutter_chars(*time),
{
    match time {
        Some(r) => {
            if r.d == 0 {
                return None;
            }
            let mut text = String::new();
            if r.n == 1 {
                text.append("1/");
                push_decimal(&mut text, r.d as u64);
                assert(text@ =~= "1/"@ + decimal(r.d as nat));
            } else if r.d == 1 {
                push_decimal(&mut text, r.n as u64);
                text.append("s");
                assert(text@ =~= decimal(r.n as nat) + "s"@);
            } else {
                text.append(r.tenths.as_str());
                text.append("s");
                assert(text@ =~= r.tenths@ + "s"@);
            }
            Some(text)
        },
        None => None,
    }
}

fn read_aperture(fnumber: &Option<Rational>) -> (aperture: Option<String>)
    ensures
        opt_string(aperture) == aperture_chars(*fnumber),
{
    match fnumber {
        Some(r) => {
            if r.d == 0 {
                return None;
            }
            let mut text = String::from_str("f/");
            text.append(r.tenths.as_str());
            Some(text)
        },
        None => None,
    }
}

impl Default for FileMeta {
    fn default() -> (meta: Self)
        ensures
            meta.orient == Orient::R0,
            meta.rating is None,
            meta.camera@.len() == 0,
            meta.lens is None,
            meta.iso is None,
            meta.shutter is None,
            meta.aperture is None,
            meta.focal_mm is None,
            meta.captured is None,
    {
        FileMeta {
            orient: Orient::R0,
            rating: None,
            camera: String::new(),
            lens: None,
            iso: None,
            shutter: None,
            aperture: None,
            focal_mm: None,
            captured: None,
        }
    }
}

impl FileMeta {
    /// Extracts and formats the subset of container metadata used by the
    /// viewer.
    ///
    /// Invalid zero-denominator exposure, aperture, and focal-length rationals
    /// are omitted. No file or pixel decoding is performed by this conversion.
    pub fn from_metadata(md: &ContainerMetadata) -> (meta: Self)
        ensures
            meta.orient == crate::types::exif_orient(md.orientation),
            meta.rating == md.rating,
            meta.camera@ == trimmed(md.make@ + " "@ + md.model@, false),
            opt_string(meta.lens) == lens_chars(
                opt_string(md.lens_name),
                opt_string(md.lens_model),
            ),
            meta.iso == iso_of(*md),
            opt_string(meta.shutter) == shutter_chars(md.exposure_time),
            opt_string(meta.aperture) == aperture_chars(md.fnumber),
            meta.focal_mm == focal_of(md.focal_length),
            opt_timestamp(meta.captured) == captured_of(*md),
            has_plain_dates(*md) ==> opt_timestamp(meta.captured) == plain_captured_of(*md),
            meta.captured matches Some(time) ==> time.wf(),
    {
        let mut camera = String::new();
        camera.append(md.make.as_str());
        camera.append(" ");
        camera.append(md.model.as_str());
        assert(camera@ =~= md.make@ + " "@ + md.model@);
        let iso: Option<u32> = match md.iso_speed_ratings {
            Some(rating) => Some(rating as u32),
            None => match md.iso_speed {
                Some(speed) => Some(speed),
                None => md.recommended_exposure_index,
            },
        };
        let focal_mm: Option<(u32, u32)> = match &md.focal_length {
            Some(r) => if r.d == 0 {
                None
            } else {
                Some((r.n, r.d))
            },
            None => None,
        };
        let hours: Option<i16> = match &md.timezone_offset {
            Some(hours) => if hours.len() > 0 {
                Some(hours[0])
            } else {
                None
            },
            None => None,
        };
        let original = read_triplet(
            &md.date_time_original,
            &md.sub_sec_time_original,
            &md.offset_time_original,
        );
        let chosen: Option<CaptureTimestamp> = match original {
            Some(time) => Some(time),
            None => read_triplet(
                &md.create_date,
                &md.sub_sec_time_digitized,
                &md.offset_time_digitized,
            ),
        };
        let captured: Option<CaptureTimestamp> = match chosen {
            Some(time) => Some(time.with_legacy_offset(hours)),
            None => None,
        };
        FileMeta {
            orient: Orient::from_exif(md.orientation),
            rating: md.rating,
            camera: trim_text(camera.as_str(), false).to_owned(),
            lens: read_lens(&md.lens_name, &md.lens_model),
            iso,
            shutter: read_shutter(&md.exposure_time),
            aperture: read_aperture(&md.fnumber),
            focal_mm,
            captured,
        }
    }
}

// ---------------------------------------------------------------------------
// Laws
// ---------------------------------------------------------------------------

proof fn lemma_trimmed_ends(text: Seq<char>, nul: bool)
    ensures
        trimmed(text, nul).len() > 0 ==> !is_padding(trimmed(text, nul)[0], nul) && !is_padding(
            trimmed(text, nul).last(),
            nul,
        ),
    decreases text.len(),
{
    if text.len() > 0 {
        if is_padding(text[0], nul) {
            lemma_trimmed_ends(text.skip(1), nul);
        } else if is_padding(text.last(), nul) {
            lemma_trimmed_ends(text.drop_last(), nul);
        }
    }
}

/// Trimming leaves no padding at either end, and trimming twice changes
/// nothing.
pub proof fn law_trimming_is_idempotent(text: Seq<char>, nul: bool)
    ensures
        trimmed(trimmed(text, nul), nul) == trimmed(text, nul),
{
    lemma_trimmed_ends(text, nul);
}

/// A timestamp without a recorded offset and without a legacy hour stays
/// without a time zone; a recorded offset is never replaced.
pub proof fn law_time_zone_is_never_invented(time: TimestampModel, hours: Option<i16>)
    ensures
        time.offset is None && hours is None ==> with_hours(time, hours).offset is None,
        time.offset is Some ==> with_hours(time, hours) == time,
{
}

/// Whether a text is another one without the padding at its ends: nothing but
/// padding was cut, and none is left. White space is padding, and NUL where `nul`
/// is set.
pub open spec fn strips_to(text: Seq<char>, kept: Seq<char>, nul: bool) -> bool {
    exists|first: int, end: int| #[trigger] strips_between(text, kept, nul, first, end)
}

/// Whether `kept` is what stands between two positions of a text, with nothing but
/// padding outside and none at its own ends.
pub open spec fn strips_between(
    text: Seq<char>,
    kept: Seq<char>,
    nul: bool,
    first: int,
    end: int,
) -> bool {
    let cut = |i: int| whitespace(text[i]) || (nul && text[i] as int == 0);
    &&& 0 <= first <= end <= text.len()
    &&& kept == text.subrange(first, end)
    &&& forall|i: int| 0 <= i < first ==> #[trigger] cut(i)
    &&& forall|i: int| end <= i < text.len() ==> #[trigger] cut(i)
    &&& first < end ==> !cut(first) && !cut(end - 1)
}

proof fn lemma_trimmed_strips(text: Seq<char>, nul: bool)
    ensures
        strips_to(text, trimmed(text, nul), nul),
    decreases text.len(),
{
    let kept = trimmed(text, nul);
    let cut = |i: int| whitespace(text[i]) || (nul && text[i] as int == 0);
    if text.len() == 0 {
        assert(kept =~= text.subrange(0, 0));
        assert(strips_between(text, kept, nul, 0, 0));
    } else if is_padding(text[0], nul) {
        let rest = text.skip(1);
        lemma_trimmed_strips(rest, nul);
        let (a, b) = choose|first: int, end: int| #[trigger]
            strips_between(rest, kept, nul, first, end);
        let inner = |i: int| whitespace(rest[i]) || (nul && rest[i] as int == 0);
        assert(kept =~= text.subrange(a + 1, b + 1));
        assert forall|i: int| 0 <= i < a + 1 implies #[trigger] cut(i) by {
            if i > 0 {
                assert(inner(i - 1));
            }
        }
        assert forall|i: int| b + 1 <= i < text.len() implies #[trigger] cut(i) by {
            assert(inner(i - 1));
        }
        if a < b {
            assert(!inner(a) && !inner(b - 1));
            assert(!cut(a + 1) && !cut(b));
        }
        assert(strips_between(text, kept, nul, a + 1, b + 1));
    } else if is_padding(text.last(), nul) {
        let rest = text.drop_last();
        lemma_trimmed_strips(rest, nul);
        let (a, b) = choose|first: int, end: int| #[trigger]
            strips_between(rest, kept, nul, first, end);
        let inner = |i: int| whitespace(rest[i]) || (nul && rest[i] as int == 0);
        assert(kept =~= text.subrange(a, b));
        assert forall|i: int| 0 <= i < a implies #[trigger] cut(i) by {
            assert(inner(i));
        }
        assert forall|i: int| b <= i < text.len() implies #[trigger] cut(i) by {
            if i < rest.len() {
                assert(inner(i));
            }
        }
        if a < b {
            assert(!inner(a) && !inner(b - 1));
            assert(!cut(a) && !cut(b - 1));
        }
        assert(strips_between(text, kept, nul, a, b));
    } else {
        assert(kept =~= text.subrange(0, text.len() as int));
        assert(!cut(0) && !cut(text.len() - 1));
        assert(strips_between(text, kept, nul, 0, text.len() as int));
    }
}

proof fn lemma_one_way_to_strip(text: Seq<char>, a: Seq<char>, b: Seq<char>, nul: bool)
    requires
        strips_to(text, a, nul),
        strips_to(text, b, nul),
    ensures
        a == b,
{
    let cut = |i: int| whitespace(text[i]) || (nul && text[i] as int == 0);
    let (p, q) = choose|first: int, end: int| #[trigger] strips_between(text, a, nul, first, end);
    let (r, s) = choose|first: int, end: int| #[trigger] strips_between(text, b, nul, first, end);
    assert(p < q ==> !cut(p) && !cut(q - 1));
    assert(r < s ==> !cut(r) && !cut(s - 1));
    if p < q && r == s {
        assert(p < r ==> cut(p));
        assert(p >= s ==> cut(p));
    } else if r < s && p == q {
        assert(r < p ==> cut(r));
        assert(r >= q ==> cut(r));
    } else if p < q && r < s {
        if p < r {
            assert(cut(p));
        }
        if r < p {
            assert(cut(r));
        }
        if q < s {
            assert(cut(s - 1));
        }
        if s < q {
            assert(cut(q - 1));
        }
    }
    assert(a =~= b);
}

/// An exposure time reads as it was recorded. One over something reads `1/`
/// followed by digits whose value is the denominator; a whole number of seconds
/// other than one reads as digits of that value and an `s`; any other one as its
/// rounded quotient and an `s`. A zero denominator shows nothing.
pub proof fn law_shutter_reads_as_the_exposure(md: ContainerMetadata, meta: FileMeta)
    requires
        call_ensures(FileMeta::from_metadata, (&md,), meta),
    ensures
        match (md.exposure_time, meta.shutter) {
            (None, shutter) => shutter is None,
            (Some(time), None) => time.d == 0,
            (Some(time), Some(shutter)) => {
                let text = shutter@;
                let len = text.len() as int;
                &&& time.d != 0
                &&& time.n == 1 ==> len > 2 && text[0] == '1' && text[1] == '/' && digits_value(
                    text.subrange(2, len),
                ) == time.d && (forall|i: int|
                    2 <= i < len ==> 48 <= (#[trigger] text[i]) as int <= 57) && text[2] != '0'
                &&& time.n != 1 && time.d == 1 ==> len > 1 && text[len - 1] == 's' && digits_value(
                    text.subrange(0, len - 1),
                ) == time.n && (forall|i: int|
                    0 <= i < len - 1 ==> 48 <= (#[trigger] text[i]) as int <= 57)
                &&& time.n != 1 && time.d != 1 ==> len == time.tenths@.len() + 1 && text[len - 1]
                    == 's' && text.subrange(0, len - 1) == time.tenths@
            },
        },
{
    reveal_strlit("1/");
    reveal_strlit("s");
    if let (Some(time), Some(shutter)) = (md.exposure_time, meta.shutter) {
        let text = shutter@;
        law_decimal_digits_read_as_the_number(time.d as nat, 0);
        law_decimal_digits_read_as_the_number(time.n as nat, 0);
        if time.n == 1 {
            assert(text.subrange(2, text.len() as int) =~= decimal(time.d as nat));
            assert forall|i: int| 2 <= i < text.len() implies 48 <= (#[trigger] text[i]) as int
                <= 57 by {
                assert(text[i] == decimal(time.d as nat)[i - 2]);
            }
            assert(text[2] == decimal(time.d as nat)[0]);
        } else if time.d == 1 {
            assert(text.subrange(0, text.len() - 1) =~= decimal(time.n as nat));
            assert forall|i: int| 0 <= i < text.len() - 1 implies 48 <= (#[trigger] text[i]) as int
                <= 57 by {
                assert(text[i] == decimal(time.n as nat)[i]);
            }
        } else {
            assert(text.subrange(0, text.len() - 1) =~= time.tenths@);
        }
    }
}

/// Two exposures of one over something read alike only where they are the same.
pub proof fn law_different_fractions_read_differently(
    md: ContainerMetadata,
    meta: FileMeta,
    other_md: ContainerMetadata,
    other: FileMeta,
)
    requires
        call_ensures(FileMeta::from_metadata, (&md,), meta),
        call_ensures(FileMeta::from_metadata, (&other_md,), other),
        md.exposure_time matches Some(time) && time.n == 1 && time.d != 0,
        other_md.exposure_time matches Some(time) && time.n == 1 && time.d != 0,
        (meta.shutter matches Some(a) && other.shutter matches Some(b) && a@ == b@),
    ensures
        md.exposure_time->0.d == other_md.exposure_time->0.d,
{
    law_shutter_reads_as_the_exposure(md, meta);
    law_shutter_reads_as_the_exposure(other_md, other);
}

/// What is shown of an aperture, a focal length, a speed, a lens and a camera. The
/// aperture reads `f/` and its rounded quotient; the focal length is the recorded
/// fraction; neither is shown for a zero denominator. The speed is the first that
/// was recorded of the classic rating, the modern speed and the recommended index.
/// The lens is the decoded name, else the EXIF model, stripped of padding, and
/// nothing where that leaves nothing. The camera is make and model with one space
/// between them, stripped likewise. The rating and the orientation are passed on.
pub proof fn law_metadata_reads_as_recorded(
    md: ContainerMetadata,
    meta: FileMeta,
    orient: Orient,
)
    requires
        call_ensures(FileMeta::from_metadata, (&md,), meta),
        call_ensures(Orient::from_exif, (md.orientation,), orient),
    ensures
        meta.orient == orient,
        meta.rating == md.rating,
        match (md.fnumber, meta.aperture) {
            (Some(f), Some(text)) => f.d != 0 && text@.len() == f.tenths@.len() + 2 && text@[0]
                == 'f' && text@[1] == '/' && text@.skip(2) == f.tenths@,
            (Some(f), None) => f.d == 0,
            (None, text) => text is None,
        },
        match (md.focal_length, meta.focal_mm) {
            (Some(f), Some((n, d))) => d != 0 && n == f.n && d == f.d,
            (Some(f), None) => f.d == 0,
            (None, focal) => focal is None,
        },
        md.iso_speed_ratings matches Some(rating) ==> (meta.iso matches Some(iso) && iso == rating),
        md.iso_speed_ratings is None && md.iso_speed is Some ==> meta.iso == md.iso_speed,
        md.iso_speed_ratings is None && md.iso_speed is None ==> meta.iso
            == md.recommended_exposure_index,
        md.lens_name is None && md.lens_model is None ==> meta.lens is None,
        meta.lens matches Some(lens) ==> lens@.len() > 0,
        md.lens_name matches Some(name) ==> exists|kept: Seq<char>|
            #![auto]
            strips_to(name@, kept, false) && match meta.lens {
                Some(lens) => lens@ == kept,
                None => kept.len() == 0,
            },
        md.lens_name is None && md.lens_model is Some ==> exists|kept: Seq<char>|
            #![auto]
            strips_to(md.lens_model->0@, kept, false) && match meta.lens {
                Some(lens) => lens@ == kept,
                None => kept.len() == 0,
            },
        strips_to(md.make@.push(' ') + md.model@, meta.camera@, false),
{
    reveal_strlit("f/");
    reveal_strlit(" ");
    if let (Some(f), Some(text)) = (md.fnumber, meta.aperture) {
        assert(text@.skip(2) =~= f.tenths@);
    }
    assert(md.make@ + " "@ + md.model@ =~= md.make@.push(' ') + md.model@);
    lemma_trimmed_strips(md.make@.push(' ') + md.model@, false);
    if let Some(name) = md.lens_name {
        lemma_trimmed_strips(name@, false);
        assert(strips_to(name@, trimmed(name@, false), false));
    } else if let Some(model) = md.lens_model {
        lemma_trimmed_strips(model@, false);
        assert(strips_to(model@, trimmed(model@, false), false));
    }
}

/// Whether a stripped text writes a UTC offset of some seconds: a sign, two digits
/// of hours up to 23, a colon, and two digits of minutes up to 59.
pub open spec fn writes_offset(kept: Seq<char>, seconds: int) -> bool {
    &&& kept.len() == 6 && (kept[0] == '+' || kept[0] == '-') && kept[3] == ':'
    &&& forall|i: int| i == 1 || i == 2 || i == 4 || i == 5 ==> 48 <= (#[trigger] kept[i]) as int
        <= 57
    &&& {
        let hours = (kept[1] as int - 48) * 10 + (kept[2] as int - 48);
        let minutes = (kept[4] as int - 48) * 10 + (kept[5] as int - 48);
        &&& hours < 24 && minutes < 60
        &&& seconds == if kept[0] == '+' {
            hours * 3600 + minutes * 60
        } else {
            -(hours * 3600 + minutes * 60)
        }
    }
}

/// The modifiers of a date are read on their own: subseconds are one to nine
/// digits, an offset is signed hours and minutes within a day, and what is neither
/// is left out without touching the date. The date itself depends on neither.
pub proof fn law_modifiers_are_read_on_their_own(
    local: &str,
    subsecond: Option<&str>,
    offset: Option<&str>,
    parsed: Option<CaptureTimestamp>,
    bare: Option<CaptureTimestamp>,
    kept: Seq<char>,
)
    requires
        call_ensures(CaptureTimestamp::from_exif_parts, (local, subsecond, offset), parsed),
        call_ensures(CaptureTimestamp::from_exif_parts, (local, None, None), bare),
    ensures
        parsed is Some <==> bare is Some,
        parsed matches Some(time) ==> {
            &&& time@.local == bare->0@.local
            &&& bare->0@.subsecond is None && bare->0@.offset is None
            &&& subsecond is None ==> time@.subsecond is None
            &&& offset is None ==> time@.offset is None
            &&& subsecond matches Some(text) ==> (strips_to(text@, kept, true) ==> {
                let digits = 1 <= kept.len() <= 9 && forall|i: int|
                    0 <= i < kept.len() ==> 48 <= (#[trigger] kept[i]) as int <= 57;
                &&& digits ==> time@.subsecond == Some(kept)
                &&& !digits ==> time@.subsecond is None
            })
            &&& offset matches Some(text) ==> (strips_to(text@, kept, true) ==> match time@.offset {
                Some(seconds) => writes_offset(kept, seconds),
                None => forall|seconds: int| !#[trigger] writes_offset(kept, seconds),
            })
        },
{
    if let Some(text) = subsecond {
        lemma_trimmed_strips(text@, true);
        if strips_to(text@, kept, true) {
            lemma_one_way_to_strip(text@, kept, trimmed(text@, true), true);
        }
    }
    if let Some(text) = offset {
        lemma_trimmed_strips(text@, true);
        if strips_to(text@, kept, true) {
            lemma_one_way_to_strip(text@, kept, trimmed(text@, true), true);
            if exif_offset(text@) is None {
                assert forall|seconds: int| !#[trigger] writes_offset(kept, seconds) by {}
            }
        }
    }
}

/// The capture time of a container is that of the original date with its own
/// modifiers, or, where that is no date, that of the digitized one with its own.
/// The first legacy hour fills in an offset that was not recorded, where it is less
/// than a day; nothing else does.
pub proof fn law_capture_time_comes_from_one_triplet(
    md: ContainerMetadata,
    meta: FileMeta,
    original: Option<CaptureTimestamp>,
    digitized: Option<CaptureTimestamp>,
    date: &str,
    created: &str,
    modifiers: (Option<&str>, Option<&str>, Option<&str>, Option<&str>),
)
    requires
        call_ensures(FileMeta::from_metadata, (&md,), meta),
        md.date_time_original matches Some(text) ==> date@ == text@,
        md.create_date matches Some(text) ==> created@ == text@,
        opt_chars(modifiers.0) == opt_string(md.sub_sec_time_original),
        opt_chars(modifiers.1) == opt_string(md.offset_time_original),
        opt_chars(modifiers.2) == opt_string(md.sub_sec_time_digitized),
        opt_chars(modifiers.3) == opt_string(md.offset_time_digitized),
        md.date_time_original is None ==> original is None,
        md.date_time_original is Some ==> call_ensures(
            CaptureTimestamp::from_exif_parts,
            (date, modifiers.0, modifiers.1),
            original,
        ),
        md.create_date is None ==> digitized is None,
        md.create_date is Some ==> call_ensures(
            CaptureTimestamp::from_exif_parts,
            (created, modifiers.2, modifiers.3),
            digitized,
        ),
    ensures
        ({
            let chosen = if original is Some {
                original
            } else {
                digitized
            };
            match (chosen, meta.captured) {
                (None, captured) => captured is None,
                (Some(_), None) => false,
                (Some(time), Some(captured)) => {
                    &&& captured@.local == time@.local
                    &&& captured@.subsecond == time@.subsecond
                    &&& time@.offset is Some ==> captured@.offset == time@.offset
                    &&& time@.offset is None ==> captured@.offset == match md.timezone_offset {
                        Some(hours) => if hours@.len() > 0 && -24 < hours@[0] < 24 {
                            Some(hours@[0] * 3600)
                        } else {
                            None
                        },
                        None => None,
                    }
                },
            }
        }),
{
}

/// A text of the exact shape `YYYY:MM:DD HH:MM:SS` gives the numbers it writes, and
/// gives nothing where no such day or time of day exists; second 60 is left to the
/// calendar.
pub proof fn law_plain_dates_give_the_numbers_they_write(
    local: &str,
    kept: Seq<char>,
    parsed: Option<CaptureTimestamp>,
    fields: TimeFields,
)
    requires
        call_ensures(CaptureTimestamp::from_exif_parts, (local, None, None), parsed),
        strips_to(local@, kept, true),
        kept.len() == 19,
        kept[4] == ':' && kept[7] == ':' && kept[10] == ' ' && kept[13] == ':' && kept[16] == ':',
        forall|i: int|
            0 <= i < 19 && i != 4 && i != 7 && i != 10 && i != 13 && i != 16 ==> 48 <= (
            #[trigger] kept[i]) as int <= 57,
        fields.0 == digits_value(kept.subrange(0, 4)),
        fields.1 == digits_value(kept.subrange(5, 7)),
        fields.2 == digits_value(kept.subrange(8, 10)),
        fields.3 == digits_value(kept.subrange(11, 13)),
        fields.4 == digits_value(kept.subrange(14, 16)),
        fields.5 == digits_value(kept.subrange(17, 19)),
        fields.6 == 0,
        fields.5 != 60,
    ensures
        ({
            let leap = fields.0 % 4 == 0 && (fields.0 % 100 != 0 || fields.0 % 400 == 0);
            let days: int = if fields.1 == 2 {
                if leap {
                    29
                } else {
                    28
                }
            } else if fields.1 == 4 || fields.1 == 6 || fields.1 == 9 || fields.1 == 11 {
                30
            } else {
                31
            };
            let exists_day = 1 <= fields.1 <= 12 && 1 <= fields.2 <= days;
            let exists_time = fields.3 <= 23 && fields.4 <= 59 && fields.5 <= 59;
            match parsed {
                Some(time) => exists_day && exists_time && time@.local == fields,
                None => !(exists_day && exists_time),
            }
        }),
{
    lemma_trimmed_strips(local@, true);
    lemma_one_way_to_strip(local@, kept, trimmed(local@, true), true);
    assert(has_exif_shape(kept));
    reveal_with_fuel(number_at, 5);
    reveal_with_fuel(digits_value, 5);
    lemma_two_digit_value(kept, 5);
    lemma_two_digit_value(kept, 8);
    lemma_two_digit_value(kept, 11);
    lemma_two_digit_value(kept, 14);
    lemma_two_digit_value(kept, 17);
    let year = kept.subrange(0, 4);
    assert(year.drop_last() =~= kept.subrange(0, 3));
    assert(year.drop_last().drop_last() =~= kept.subrange(0, 2));
    assert(year.drop_last().drop_last().drop_last() =~= kept.subrange(0, 1));
    assert(year.drop_last().drop_last().drop_last().drop_last() =~= seq![]);
    assert(digits_value(kept.subrange(0, 1)) == kept[0] as int - 48);
    assert(digits_value(kept.subrange(0, 2)) == (kept[0] as int - 48) * 10 + (kept[1] as int - 48));
    assert(number_at(kept, 0, 4) == fields.0);
}

proof fn lemma_two_digit_value(text: Seq<char>, at: int)
    requires
        0 <= at,
        at + 2 <= text.len(),
        48 <= text[at] as int <= 57,
        48 <= text[at + 1] as int <= 57,
    ensures
        digits_value(text.subrange(at, at + 2)) == number_at(text, at, 2),
{
    let pair = text.subrange(at, at + 2);
    assert(pair.drop_last() =~= text.subrange(at, at + 1));
    assert(pair.drop_last().drop_last() =~= seq![]);
    reveal_with_fuel(digits_value, 3);
    reveal_with_fuel(number_at, 3);
}

/// A timestamp reads as its date and time, a dot and the subseconds where they are
/// known, and a space and the offset where that is known.
pub proof fn law_timestamps_read_as_their_parts(time: &CaptureTimestamp, text: String)
    requires
        call_ensures(CaptureTimestamp::to_text, (time,), text),
    ensures
        ({
            let date = local_chars(time@.local);
            let (fraction, start) = match time@.subsecond {
                Some(digits) => (seq!['.'] + digits, date.len() + 1 + digits.len()),
                None => (seq![], date.len()),
            };
            &&& text@.take(date.len() as int) == date
            &&& text@.subrange(date.len() as int, start as int) == fraction
            &&& match time@.offset {
                Some(seconds) => text@.skip(start as int) == seq![' '] + offset_chars(seconds),
                None => text@.len() == start,
            }
            &&& 0 <= time@.local.0 <= 9999 && has_plain_form(time@.local) ==> date.len() == 19
                && text@[4] == '-' && text@[7] == '-' && text@[10] == ' ' && text@[13] == ':'
                && text@[16] == ':' && text@[0] as int == 48 + time@.local.0 / 1000
                && text@[3] as int == 48 + time@.local.0 % 10
        }),
{
    let date = local_chars(time@.local);
    if has_plain_form(time@.local) {
        assert(plain_local_chars(time@.local).len() == 19);
        assert(text@ == plain_local_chars(time@.local) + modifier_chars(time@));
        assert(text@ == date + modifier_chars(time@));
    }
}

/// A date that was already read takes the same modifiers as one that is read with them,
/// and stays what it is.
pub proof fn law_ready_dates_take_the_same_modifiers(
    local: LocalTime,
    text: &str,
    subsecond: Option<&str>,
    offset: Option<&str>,
    time: CaptureTimestamp,
    parsed: CaptureTimestamp,
)
    requires
        call_ensures(CaptureTimestamp::from_local, (local, subsecond, offset), time),
        call_ensures(
            CaptureTimestamp::from_exif_parts,
            (text, subsecond, offset),
            Some(parsed),
        ),
    ensures
        time@.local == (
            local.year as int,
            local.month as int,
            local.day as int,
            local.hour as int,
            local.minute as int,
            local.second as int,
            local.nanosecond as int,
        ),
        time@.subsecond == parsed@.subsecond,
        time@.offset == parsed@.offset,
{
}

} // verus!
