//! Decode of baseline JPEGs whose restart interval is one MCU row, split into
//! independent runs of rows.
//!
//! The cache encoder emits a DRI segment whose interval equals exactly one MCU
//! row of the scan. Every restart boundary then lands on a whole-MCU-row
//! boundary and resets the DC predictors, so each run of MCU rows is
//! independently decodable. This module splits such a scan into chunks, wraps
//! each chunk in a mini JPEG (the original header with a patched SOF height,
//! the chunk's entropy bytes, and an EOI), and decodes the chunks into disjoint
//! rows of one RGBA image.
//!
//! Anything else (no DRI, a mismatched interval, progressive scans, other
//! component layouts, marker anomalies, truncated streams) is refused, and the
//! caller keeps the ordinary serial decode. The bytes on disk stay a standard
//! baseline JPEG that any decoder can read.

use vstd::prelude::*;
use vstd::slice::slice_subrange;

pub mod chunks;
pub mod decode;
pub mod phases;
pub mod segments;

verus! {

/// Entropy payloads smaller than this decode quickly enough serially that
/// marker scanning and chunk assembly are not worth scheduling.
pub const MIN_PARALLEL_SCAN_BYTES: usize = 262_144;

/// Decode chunks scheduled per available worker.
pub const CHUNKS_PER_WORKER: usize = 6;

/// A half-open range of positions.
#[derive(Debug, Clone, Copy, PartialEq, Eq, Structural)]
pub struct Span {
    pub start: usize,
    pub end: usize,
}

impl Span {
    /// Number of positions.
    pub open spec fn size(self) -> int {
        self.end - self.start
    }
}

// ---------------------------------------------------------------------------
// The header
// ---------------------------------------------------------------------------

/// Big-endian 16-bit number at a position.
pub open spec fn be16(bytes: Seq<u8>, at: int) -> int {
    bytes[at] * 256 + bytes[at + 1]
}

/// Length of the segment whose length field is at `at`, where it fits the
/// stream.
pub open spec fn segment_len(bytes: Seq<u8>, at: int) -> Option<int> {
    if 0 <= at && at + 1 < bytes.len() && be16(bytes, at) >= 2 && at + be16(bytes, at)
        <= bytes.len() {
        Some(be16(bytes, at))
    } else {
        None
    }
}

/// Position of the marker code at or after `at`, past fill bytes.
pub open spec fn marker_at(bytes: Seq<u8>, at: int) -> Option<int>
    decreases bytes.len() - at,
{
    if at < 0 || at >= bytes.len() {
        None
    } else if bytes[at] == 0xFF {
        marker_at(bytes, at + 1)
    } else {
        Some(at)
    }
}

/// A marker code is found at or after the position where the search began.
pub proof fn lemma_marker_at(bytes: Seq<u8>, at: int)
    ensures
        marker_at(bytes, at) matches Some(found) ==> at <= found < bytes.len() && bytes[found]
            != 0xFF,
    decreases bytes.len() - at,
{
    if 0 <= at < bytes.len() && bytes[at] == 0xFF {
        lemma_marker_at(bytes, at + 1);
    }
}

/// What a baseline frame header says.
pub struct FrameModel {
    pub width: int,
    pub height: int,
    /// Largest horizontal sampling factor.
    pub max_h: int,
    /// Position of the big-endian height field.
    pub height_offset: int,
}

/// The larger of two numbers.
pub open spec fn larger(a: int, b: int) -> int {
    if a < b {
        b
    } else {
        a
    }
}

/// The frame header whose length field is at `at`, if this module can split its
/// scan: three 8-bit components, horizontal sampling up to four, and no vertical
/// subsampling.
///
/// Vertical chroma subsampling makes fancy chroma upsampling interpolate across
/// MCU-row boundaries, so a row-chunked decode would differ near chunk seams.
pub open spec fn frame_at(bytes: Seq<u8>, at: int, len: int) -> Option<FrameModel> {
    if len >= 17 && bytes[at + 2] == 8 && bytes[at + 7] == 3 {
        let max_h = larger(
            bytes[at + 9] as int / 16,
            larger(bytes[at + 12] as int / 16, bytes[at + 15] as int / 16),
        );
        let max_v = larger(
            bytes[at + 9] as int % 16,
            larger(bytes[at + 12] as int % 16, bytes[at + 15] as int % 16),
        );
        if 1 <= max_h <= 4 && max_v == 1 {
            Some(
                FrameModel {
                    width: be16(bytes, at + 5),
                    height: be16(bytes, at + 3),
                    max_h,
                    height_offset: at + 3,
                },
            )
        } else {
            None
        }
    } else {
        None
    }
}

/// Whether a marker carries no length field.
pub open spec fn is_standalone(marker: u8) -> bool {
    marker == 0x01 || 0xD0 <= marker <= 0xD7
}

/// Whether a marker starts a progressive, extended, lossless, hierarchical, or
/// arithmetic frame.
pub open spec fn is_other_frame(marker: u8) -> bool {
    0xC1 <= marker <= 0xCF && marker != 0xC4 && marker != 0xC8 && marker != 0xCC
}

/// What the segments before the entropy data say.
pub struct HeaderModel {
    pub entropy_start: int,
    pub frame: Option<FrameModel>,
    /// Restart interval in MCUs.
    pub interval: Option<int>,
}

/// Reads the segments from `at` up to the entropy data.
pub open spec fn header_at(
    bytes: Seq<u8>,
    at: int,
    frame: Option<FrameModel>,
    interval: Option<int>,
) -> Option<HeaderModel>
    decreases bytes.len() - at,
{
    if at < 0 || at >= bytes.len() || bytes[at] != 0xFF {
        None
    } else {
        proof {
            lemma_marker_at(bytes, at + 1);
        }
        match marker_at(bytes, at + 1) {
            None => None,
            Some(found) => if found < at {
                None
            } else {
                let marker = bytes[found];
                let next = found + 1;
                if is_standalone(marker) {
                    header_at(bytes, next, frame, interval)
                } else if is_other_frame(marker) || marker == 0xD8 || marker == 0xD9 {
                    None
                } else {
                    match segment_len(bytes, next) {
                        None => None,
                        Some(len) => if marker == 0xDA {
                            Some(HeaderModel { entropy_start: next + len, frame, interval })
                        } else if marker == 0xC0 {
                            match frame_at(bytes, next, len) {
                                Some(found_frame) => if frame is Some {
                                    None
                                } else {
                                    header_at(bytes, next + len, Some(found_frame), interval)
                                },
                                None => None,
                            }
                        } else if marker == 0xDD {
                            if len == 4 {
                                header_at(
                                    bytes,
                                    next + len,
                                    frame,
                                    Some(be16(bytes, next + 2)),
                                )
                            } else {
                                None
                            }
                        } else {
                            header_at(bytes, next + len, frame, interval)
                        },
                    }
                }
            },
        }
    }
}

// ---------------------------------------------------------------------------
// The rows
// ---------------------------------------------------------------------------

/// Splits the entropy data from `at` on at its restart markers, up to the end of
/// the image; `start` is where the current row began.
pub open spec fn rows_at(bytes: Seq<u8>, at: int, start: int, done: Seq<Span>) -> Option<Seq<Span>>
    decreases bytes.len() - at,
{
    if at < 0 || at + 1 >= bytes.len() {
        None
    } else if bytes[at] != 0xFF {
        rows_at(bytes, at + 1, start, done)
    } else {
        let code = bytes[at + 1];
        let row = Span { start: start as usize, end: at as usize };
        if code == 0x00 || code == 0xFF {
            // Byte stuffing, or a fill byte before the marker after it.
            rows_at(bytes, at + 1, start, done)
        } else if 0xD0 <= code <= 0xD7 {
            rows_at(bytes, at + 1, at + 2, done.push(row))
        } else if code == 0xD9 {
            Some(done.push(row))
        } else {
            None
        }
    }
}

/// Quotient rounded up.
pub open spec fn ceil_div(a: int, b: int) -> int {
    (a + b - 1) / b
}

/// A scan that splits into MCU rows.
pub struct LayoutModel {
    pub width: int,
    pub height: int,
    pub height_offset: int,
    pub entropy_start: int,
    /// Entropy byte range of each MCU row, excluding the restart markers
    /// between rows and the trailing EOI.
    pub rows: Seq<Span>,
}

/// The rows of a stream with the given header, where the split is exact: the
/// restart interval is one MCU row, there are at least two rows, and the scan is
/// large enough to be worth it.
pub open spec fn layout_from(bytes: Seq<u8>, header: HeaderModel) -> Option<LayoutModel> {
    match header.frame {
        None => None,
        Some(frame) => {
            let mcu_rows = ceil_div(frame.height, 8);
            if frame.width == 0 || frame.height == 0 || header.interval != Some(
                ceil_div(frame.width, 8 * frame.max_h),
            ) || mcu_rows < 2 || bytes.len() - header.entropy_start < MIN_PARALLEL_SCAN_BYTES {
                None
            } else {
                match rows_at(bytes, header.entropy_start, header.entropy_start, seq![]) {
                    Some(rows) => if rows.len() == mcu_rows {
                        Some(
                            LayoutModel {
                                width: frame.width,
                                height: frame.height,
                                height_offset: frame.height_offset,
                                entropy_start: header.entropy_start,
                                rows,
                            },
                        )
                    } else {
                        None
                    },
                    None => None,
                }
            }
        },
    }
}

/// The layout of a stream that this module proves splittable.
pub open spec fn layout_of(bytes: Seq<u8>) -> Option<LayoutModel> {
    if bytes.len() < 4 || bytes[0] != 0xFF || bytes[1] != 0xD8 {
        None
    } else {
        match header_at(bytes, 2, None, None) {
            Some(header) => layout_from(bytes, header),
            None => None,
        }
    }
}

/// A scan that splits into MCU rows of eight pixel rows each.
pub struct ScanLayout {
    pub width: usize,
    pub height: usize,
    /// Pixel rows covered by one MCU row.
    pub mcu_row_px: usize,
    /// Offset of the big-endian SOF height field.
    pub sof_height_offset: usize,
    /// Offset of the first entropy-coded byte (just after the SOS header).
    pub entropy_start: usize,
    /// Entropy byte range of each MCU row.
    pub rows: Vec<Span>,
}

impl View for ScanLayout {
    type V = LayoutModel;

    open spec fn view(&self) -> LayoutModel {
        LayoutModel {
            width: self.width as int,
            height: self.height as int,
            height_offset: self.sof_height_offset as int,
            entropy_start: self.entropy_start as int,
            rows: self.rows@,
        }
    }
}

/// `memchr::memchr` returns the first position of a byte in a slice, or nothing
/// where the byte does not occur.
pub assume_specification[ memchr::memchr ](needle: u8, haystack: &[u8]) -> (found: Option<usize>)
    ensures
        match found {
            Some(at) => at < haystack@.len() && haystack@[at as int] == needle && forall|i: int|
                0 <= i < at ==> haystack@[i] != needle,
            None => forall|i: int| 0 <= i < haystack@.len() ==> haystack@[i] != needle,
        },
;

pub(crate) fn read_be16(bytes: &[u8], at: usize) -> (number: usize)
    requires
        at + 1 < bytes@.len(),
    ensures
        number == be16(bytes@, at as int),
        number <= 0xFFFF,
{
    let len: usize = bytes.len();
    bytes[at] as usize * 256 + bytes[at + 1] as usize
}

fn read_segment_length(bytes: &[u8], pos: usize) -> (length: Option<usize>)
    ensures
        match length {
            Some(len) => segment_len(bytes@, pos as int) == Some(len as int),
            None => segment_len(bytes@, pos as int) is None,
        },
{
    if pos >= bytes.len() || bytes.len() - pos < 2 {
        return None;
    }
    let len: usize = read_be16(bytes, pos);
    if len >= 2 && len <= bytes.len() - pos {
        Some(len)
    } else {
        None
    }
}

/// What a baseline frame header says.
#[derive(Debug, Clone, Copy, PartialEq, Eq, Structural)]
struct Frame {
    width: usize,
    height: usize,
    max_h: usize,
    height_offset: usize,
}

impl View for Frame {
    type V = FrameModel;

    closed spec fn view(&self) -> FrameModel {
        FrameModel {
            width: self.width as int,
            height: self.height as int,
            max_h: self.max_h as int,
            height_offset: self.height_offset as int,
        }
    }
}

spec fn opt_frame(frame: Option<Frame>) -> Option<FrameModel> {
    match frame {
        Some(frame) => Some(frame@),
        None => None,
    }
}

pub open spec fn opt_int(value: Option<usize>) -> Option<int> {
    match value {
        Some(value) => Some(value as int),
        None => None,
    }
}

fn sampling_factors(byte: u8) -> (factors: (usize, usize))
    ensures
        factors.0 == byte as int / 16,
        factors.1 == byte as int % 16,
{
    ((byte / 16) as usize, (byte % 16) as usize)
}

pub(crate) fn max_usize(a: usize, b: usize) -> (m: usize)
    ensures
        m == larger(a as int, b as int),
{
    if a < b {
        b
    } else {
        a
    }
}

fn read_frame(bytes: &[u8], pos: usize, len: usize) -> (frame: Option<Frame>)
    requires
        segment_len(bytes@, pos as int) == Some(len as int),
    ensures
        opt_frame(frame) == frame_at(bytes@, pos as int, len as int),
        frame matches Some(f) ==> f.width <= 0xFFFF && f.height <= 0xFFFF && 1 <= f.max_h <= 4
            && f.height_offset + 1 < bytes@.len(),
{
    let total: usize = bytes.len();
    if len < 17 || bytes[pos + 2] != 8 || bytes[pos + 7] != 3 {
        return None;
    }
    let (h0, v0) = sampling_factors(bytes[pos + 9]);
    let (h1, v1) = sampling_factors(bytes[pos + 12]);
    let (h2, v2) = sampling_factors(bytes[pos + 15]);
    let max_h: usize = max_usize(h0, max_usize(h1, h2));
    let max_v: usize = max_usize(v0, max_usize(v1, v2));
    if max_h < 1 || max_h > 4 || max_v != 1 {
        return None;
    }
    Some(
        Frame {
            width: read_be16(bytes, pos + 5),
            height: read_be16(bytes, pos + 3),
            max_h,
            height_offset: pos + 3,
        },
    )
}

struct Header {
    entropy_start: usize,
    frame: Option<Frame>,
    interval: Option<usize>,
}

spec fn opt_header(header: Option<Header>) -> Option<HeaderModel> {
    match header {
        Some(header) => Some(
            HeaderModel {
                entropy_start: header.entropy_start as int,
                frame: opt_frame(header.frame),
                interval: opt_int(header.interval),
            },
        ),
        None => None,
    }
}

/// Skips fill bytes before a marker code.
pub(crate) fn skip_fill(bytes: &[u8], from: usize) -> (code: Option<usize>)
    ensures
        opt_int(code) == marker_at(bytes@, from as int),
{
    let mut at: usize = from;
    while at < bytes.len()
        invariant
            from <= at,
            marker_at(bytes@, from as int) == marker_at(bytes@, at as int),
        decreases bytes@.len() - at,
    {
        if bytes[at] != 0xFF {
            return Some(at);
        }
        at += 1;
    }
    None
}

fn read_header(bytes: &[u8]) -> (header: Option<Header>)
    requires
        bytes@.len() >= 4,
    ensures
        opt_header(header) == header_at(bytes@, 2, None, None),
        header matches Some(h) ==> h.entropy_start <= bytes@.len() && (h.frame matches Some(f)
            ==> f.width <= 0xFFFF && f.height <= 0xFFFF && 1 <= f.max_h <= 4 && f.height_offset + 1
            < h.entropy_start),
{
    let mut pos: usize = 2;
    let mut frame: Option<Frame> = None;
    let mut interval: Option<usize> = None;
    loop
        invariant
            2 <= pos <= bytes@.len(),
            header_at(bytes@, 2, None, None) == header_at(
                bytes@,
                pos as int,
                opt_frame(frame),
                opt_int(interval),
            ),
            frame matches Some(f) ==> f.width <= 0xFFFF && f.height <= 0xFFFF && 1 <= f.max_h <= 4
                && f.height_offset + 1 < pos,
        decreases bytes@.len() - pos,
    {
        if pos >= bytes.len() || bytes[pos] != 0xFF {
            return None;
        }
        proof {
            lemma_marker_at(bytes@, pos + 1);
        }
        let found: usize = match skip_fill(bytes, pos + 1) {
            Some(found) => found,
            None => return None,
        };
        let marker: u8 = bytes[found];
        let next: usize = found + 1;
        if marker == 0x01 || (0xD0 <= marker && marker <= 0xD7) {
            pos = next;
            continue;
        }
        if (0xC1 <= marker && marker <= 0xCF && marker != 0xC4 && marker != 0xC8 && marker != 0xCC)
            || marker == 0xD8 || marker == 0xD9 {
            return None;
        }
        let len: usize = match read_segment_length(bytes, next) {
            Some(len) => len,
            None => return None,
        };
        if marker == 0xDA {
            return Some(Header { entropy_start: next + len, frame, interval });
        }
        if marker == 0xC0 {
            match read_frame(bytes, next, len) {
                Some(found_frame) => {
                    if frame.is_some() {
                        return None;
                    }
                    frame = Some(found_frame);
                },
                None => return None,
            }
        } else if marker == 0xDD {
            if len != 4 {
                return None;
            }
            interval = Some(read_be16(bytes, next + 2));
        }
        pos = next + len;
    }
}

proof fn lemma_rows_skip(bytes: Seq<u8>, at: int, to: int, start: int, done: Seq<Span>)
    requires
        0 <= at <= to < bytes.len(),
        forall|i: int| at <= i < to ==> bytes[i] != 0xFF,
    ensures
        rows_at(bytes, at, start, done) == rows_at(bytes, to, start, done),
    decreases to - at,
{
    if at < to {
        lemma_rows_skip(bytes, at + 1, to, start, done);
    }
}

proof fn lemma_rows_none(bytes: Seq<u8>, at: int, start: int, done: Seq<Span>)
    requires
        0 <= at,
        forall|i: int| at <= i < bytes.len() ==> bytes[i] != 0xFF,
    ensures
        rows_at(bytes, at, start, done) is None,
    decreases bytes.len() - at,
{
    if at + 1 < bytes.len() {
        lemma_rows_none(bytes, at + 1, start, done);
    }
}

/// Whether rows lie one after the other in a stream from `start` on, each
/// separated from the next by a two-byte marker.
pub open spec fn rows_in_stream(bytes: Seq<u8>, start: int, rows: Seq<Span>) -> bool {
    &&& rows.len() > 0 ==> rows[0].start == start
    &&& forall|i: int|
        0 <= i < rows.len() ==> start <= (#[trigger] rows[i]).start <= rows[i].end < bytes.len()
    &&& forall|i: int|
        0 < i < rows.len() ==> (#[trigger] rows[i]).start == rows[i - 1].end + 2
}

proof fn lemma_rows_in_stream(
    bytes: Seq<u8>,
    first: int,
    at: int,
    start: int,
    done: Seq<Span>,
)
    requires
        bytes.len() <= usize::MAX,
        0 <= first <= start <= at + 1,
        0 <= at,
        start == at + 1 ==> at < bytes.len() && bytes[at] != 0xFF,
        rows_in_stream(bytes, first, done),
        done.len() == 0 ==> start == first,
        done.len() > 0 ==> start == done.last().end + 2,
    ensures
        rows_at(bytes, at, start, done) matches Some(rows) ==> rows_in_stream(bytes, first, rows)
            && rows.len() > 0,
    decreases bytes.len() - at,
{
    if at + 1 < bytes.len() {
        let row = Span { start: start as usize, end: at as usize };
        let code = bytes[at + 1];
        if bytes[at] != 0xFF || code == 0x00 || code == 0xFF {
            lemma_rows_in_stream(bytes, first, at + 1, start, done);
        } else if 0xD0 <= code <= 0xD7 {
            assert(rows_in_stream(bytes, first, done.push(row)));
            lemma_rows_in_stream(bytes, first, at + 1, at + 2, done.push(row));
        } else if code == 0xD9 {
            assert(rows_in_stream(bytes, first, done.push(row)));
        }
    }
}

/// Splits the entropy data at its restart markers.
fn read_rows(bytes: &[u8], entropy_start: usize) -> (rows: Option<Vec<Span>>)
    requires
        entropy_start <= bytes@.len(),
    ensures
        match rows {
            Some(rows) => rows_at(
                bytes@,
                entropy_start as int,
                entropy_start as int,
                seq![],
            ) == Some(rows@) && rows_in_stream(bytes@, entropy_start as int, rows@),
            None => rows_at(
                bytes@,
                entropy_start as int,
                entropy_start as int,
                seq![],
            ) is None,
        },
{
    let mut rows: Vec<Span> = Vec::new();
    let mut start: usize = entropy_start;
    let mut at: usize = entropy_start;
    let len: usize = bytes.len();
    proof {
        lemma_rows_in_stream(
            bytes@,
            entropy_start as int,
            entropy_start as int,
            entropy_start as int,
            seq![],
        );
    }
    loop
        invariant
            len == bytes@.len(),
            entropy_start <= at <= len,
            rows_at(bytes@, entropy_start as int, entropy_start as int, seq![]) matches Some(all)
                ==> rows_in_stream(bytes@, entropy_start as int, all),
            start <= at + 1,
            rows_at(bytes@, entropy_start as int, entropy_start as int, seq![]) == rows_at(
                bytes@,
                at as int,
                start as int,
                rows@,
            ),
        decreases len - at,
    {
        let rest = slice_subrange(bytes, at, len);
        let found: usize = match memchr::memchr(0xFF, rest) {
            Some(found) => found,
            None => {
                proof {
                    assert forall|i: int| at <= i < bytes@.len() implies bytes@[i] != 0xFF by {
                        assert(rest@[i - at] == bytes@[i]);
                    }
                    lemma_rows_none(bytes@, at as int, start as int, rows@);
                }
                return None;
            },
        };
        let marker_pos: usize = at + found;
        proof {
            assert(rest@[found as int] == bytes@[marker_pos as int]);
            assert forall|i: int| at <= i < marker_pos implies bytes@[i] != 0xFF by {
                assert(rest@[i - at] == bytes@[i]);
            }
            lemma_rows_skip(bytes@, at as int, marker_pos as int, start as int, rows@);
        }
        if marker_pos + 1 >= len {
            return None;
        }
        let code: u8 = bytes[marker_pos + 1];
        if code == 0x00 || code == 0xFF {
        } else if 0xD0 <= code && code <= 0xD7 {
            rows.push(Span { start, end: marker_pos });
            start = marker_pos + 2;
        } else if code == 0xD9 {
            rows.push(Span { start, end: marker_pos });
            return Some(rows);
        } else {
            return None;
        }
        at = marker_pos + 1;
    }
}

pub(crate) proof fn lemma_ceil_div(a: int, b: int)
    requires
        0 <= a,
        0 < b,
    ensures
        ceil_div(a, b) == if a % b == 0 {
            a / b
        } else {
            a / b + 1
        },
        a <= ceil_div(a, b) * b < a + b,
        0 <= ceil_div(a, b) <= a,
{
    let q = a / b;
    let r = a % b;
    vstd::arithmetic::div_mod::lemma_fundamental_div_mod(a, b);
    if r == 0 {
        vstd::arithmetic::div_mod::lemma_fundamental_div_mod_converse(a + b - 1, b, q, b - 1);
    } else {
        assert(a + b - 1 == b * (q + 1) + (r - 1)) by (nonlinear_arith)
            requires
                a == b * q + r,
        ;
        vstd::arithmetic::div_mod::lemma_fundamental_div_mod_converse(a + b - 1, b, q + 1, r - 1);
    }
    let c = ceil_div(a, b);
    assert(a <= c * b < a + b && 0 <= c <= a) by (nonlinear_arith)
        requires
            a == b * q + r,
            0 <= r < b,
            0 <= a,
            c == q && r == 0 || c == q + 1 && r > 0,
    ;
}

pub(crate) fn div_ceil(a: usize, b: usize) -> (q: usize)
    requires
        b > 0,
    ensures
        q == ceil_div(a as int, b as int),
{
    proof {
        lemma_ceil_div(a as int, b as int);
    }
    if a % b == 0 {
        a / b
    } else {
        a / b + 1
    }
}

/// Whether a layout lies within a stream: the frame is not empty, its height
/// field precedes the entropy data, and there is one row of entropy data for
/// every eight pixel rows.
pub open spec fn layout_fits(bytes: Seq<u8>, layout: LayoutModel) -> bool {
    &&& 1 <= layout.width <= 0xFFFF
    &&& 1 <= layout.height <= 0xFFFF
    &&& 0 <= layout.height_offset < layout.entropy_start - 1
    &&& layout.entropy_start <= bytes.len()
    &&& 2 <= layout.rows.len() == ceil_div(layout.height, 8)
    &&& rows_in_stream(bytes, layout.entropy_start, layout.rows)
}

/// Parses the header segments and locates every restart-separated MCU row.
///
/// Returns `None` for any stream this module does not prove splittable: the
/// caller must fall back to a whole-stream decode.
pub fn parse_layout(bytes: &[u8]) -> (layout: Option<ScanLayout>)
    ensures
        match layout {
            Some(layout) => layout_of(bytes@) == Some(layout@) && layout_fits(bytes@, layout@)
                && layout.mcu_row_px == 8,
            None => layout_of(bytes@) is None,
        },
{
    if bytes.len() < 4 || bytes[0] != 0xFF || bytes[1] != 0xD8 {
        return None;
    }
    let header = match read_header(bytes) {
        Some(header) => header,
        None => return None,
    };
    let frame = match header.frame {
        Some(frame) => frame,
        None => return None,
    };
    if frame.width == 0 || frame.height == 0 {
        return None;
    }
    let mcus_per_row: usize = div_ceil(frame.width, 8 * frame.max_h);
    let mcu_rows: usize = div_ceil(frame.height, 8);
    // The split relies on every restart boundary being a whole-MCU-row
    // boundary, which holds only when the interval is exactly one row.
    let exact: bool = match header.interval {
        Some(interval) => interval == mcus_per_row,
        None => false,
    };
    if !exact || mcu_rows < 2 {
        return None;
    }
    if bytes.len() - header.entropy_start < MIN_PARALLEL_SCAN_BYTES {
        return None;
    }
    let rows = match read_rows(bytes, header.entropy_start) {
        Some(rows) => rows,
        None => return None,
    };
    if rows.len() != mcu_rows {
        return None;
    }
    Some(
        ScanLayout {
            width: frame.width,
            height: frame.height,
            mcu_row_px: 8,
            sof_height_offset: frame.height_offset,
            entropy_start: header.entropy_start,
            rows,
        },
    )
}

} // verus!
