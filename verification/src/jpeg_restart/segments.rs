//! What the layout of a stream says of its segments and rows.
use vstd::prelude::*;

use crate::jpeg_restart::{
    be16, ceil_div, frame_at, header_at, is_standalone, lemma_ceil_div, lemma_marker_at, marker_at,
    parse_layout, rows_at, segment_len, FrameModel, HeaderModel, ScanLayout, Span,
};

verus! {

// ---------------------------------------------------------------------------
// The segments of a stream
// ---------------------------------------------------------------------------

/// A segment of a stream: where its fill bytes start, where its marker code stands, and
/// where it ends.
pub struct Segment {
    pub start: int,
    pub code: int,
    pub end: int,
}

/// Whether a segment stands in a stream: fill bytes, then a marker code, and then, but
/// for markers that stand alone, a length that counts itself and fits the stream.
pub open spec fn stands(bytes: Seq<u8>, segment: Segment) -> bool {
    let marker = bytes[segment.code];
    let alone = marker == 0x01 || (0xD0 <= marker && marker <= 0xD7);
    let len = bytes[segment.code + 1] * 256 + bytes[segment.code + 2];
    &&& 0 <= segment.start < segment.code < bytes.len()
    &&& forall|i: int| segment.start <= i < segment.code ==> bytes[i] == 0xFF
    &&& marker != 0xFF
    &&& alone ==> segment.end == segment.code + 1
    &&& !alone ==> segment.code + 2 < bytes.len() && len >= 2 && segment.end == segment.code + 1
        + len && segment.end <= bytes.len()
}

/// Whether a marker may stand between the start of an image and its scan: no other
/// start or end of an image, and no frame but a baseline one.
pub open spec fn may_precede_the_scan(marker: u8) -> bool {
    &&& marker != 0xD8 && marker != 0xD9
    &&& 0xC1 <= marker && marker <= 0xCF ==> marker == 0xC4 || marker == 0xC8 || marker == 0xCC
}

/// Whether segments follow one another from a position to the scan, which is the last
/// one.
pub open spec fn leads_to_the_scan(bytes: Seq<u8>, at: int, trail: Seq<Segment>) -> bool {
    &&& trail.len() > 0 && trail[0].start == at
    &&& forall|k: int| 0 <= k < trail.len() ==> stands(bytes, #[trigger] trail[k])
        && may_precede_the_scan(bytes[trail[k].code])
    &&& forall|k: int|
        0 <= k < trail.len() ==> (bytes[(#[trigger] trail[k]).code] == 0xDA <==> k == trail.len()
            - 1)
    &&& forall|k: int| 0 < k < trail.len() ==> #[trigger] follows(trail, k)
}

/// Whether a segment starts where the one before it ends.
pub open spec fn follows(trail: Seq<Segment>, k: int) -> bool {
    trail[k].start == trail[k - 1].end
}

/// Whether a frame can be split: three components of eight bits, horizontal sampling
/// factors up to four, and vertical ones of one at most, the largest factors not zero.
pub open spec fn is_splittable_frame(bytes: Seq<u8>, segment: Segment) -> bool {
    let at = segment.code + 1;
    let across = (bytes[at + 9] / 16, bytes[at + 12] / 16, bytes[at + 15] / 16);
    let down = (bytes[at + 9] % 16, bytes[at + 12] % 16, bytes[at + 15] % 16);
    &&& segment.end - at >= 17 && bytes[at + 2] == 8 && bytes[at + 7] == 3
    &&& across.0 <= 4 && across.1 <= 4 && across.2 <= 4
    &&& across.0 >= 1 || across.1 >= 1 || across.2 >= 1
    &&& down.0 <= 1 && down.1 <= 1 && down.2 <= 1
    &&& down.0 == 1 || down.1 == 1 || down.2 == 1
}

/// Whether every frame of a trail can be split, there is one at most, and every restart
/// interval has a segment of its size.
pub open spec fn is_plain_trail(bytes: Seq<u8>, trail: Seq<Segment>) -> bool {
    &&& forall|k: int|
        0 <= k < trail.len() && bytes[(#[trigger] trail[k]).code] == 0xC0 ==> is_splittable_frame(
            bytes,
            trail[k],
        )
    &&& forall|k: int, m: int|
        0 <= k < m < trail.len() && bytes[(#[trigger] trail[k]).code] == 0xC0 ==> bytes[(
        #[trigger] trail[m]).code] != 0xC0
    &&& forall|k: int|
        0 <= k < trail.len() && bytes[(#[trigger] trail[k]).code] == 0xDD ==> trail[k].end
            == trail[k].code + 5
}

pub(crate) proof fn lemma_marker_found(bytes: Seq<u8>, at: int, code: int)
    requires
        0 <= at <= code < bytes.len(),
        forall|i: int| at <= i < code ==> bytes[i] == 0xFF,
        bytes[code] != 0xFF,
    ensures
        marker_at(bytes, at) == Some(code),
    decreases code - at,
{
    if at < code {
        lemma_marker_found(bytes, at + 1, code);
    }
}

pub(crate) proof fn lemma_fill_before(bytes: Seq<u8>, at: int)
    ensures
        marker_at(bytes, at) matches Some(code) ==> forall|i: int|
            at <= i < code ==> bytes[i] == 0xFF,
    decreases bytes.len() - at,
{
    if 0 <= at < bytes.len() && bytes[at] == 0xFF {
        lemma_fill_before(bytes, at + 1);
    }
}

/// The frame that a segment describes.
spec fn frame_in(bytes: Seq<u8>, segment: Segment) -> FrameModel {
    frame_at(bytes, segment.code + 1, segment.end - segment.code - 1)->0
}

proof fn lemma_splittable(bytes: Seq<u8>, segment: Segment)
    requires
        stands(bytes, segment),
        bytes[segment.code] == 0xC0,
    ensures
        frame_at(bytes, segment.code + 1, segment.end - segment.code - 1) is Some
            <==> is_splittable_frame(bytes, segment),
        is_splittable_frame(bytes, segment) ==> ({
            let frame = frame_in(bytes, segment);
            let at = segment.code + 1;
            &&& frame.height == bytes[at + 3] * 256 + bytes[at + 4]
            &&& frame.width == bytes[at + 5] * 256 + bytes[at + 6]
            &&& frame.height_offset == at + 3
            &&& frame.max_h >= bytes[at + 9] / 16 && frame.max_h >= bytes[at + 12] / 16
                && frame.max_h >= bytes[at + 15] / 16
            &&& frame.max_h == bytes[at + 9] / 16 || frame.max_h == bytes[at + 12] / 16
                || frame.max_h == bytes[at + 15] / 16
        }),
{
    let at = segment.code + 1;
    assert(bytes[at + 9] as int / 16 == (bytes[at + 9] / 16) as int);
    assert(bytes[at + 12] as int / 16 == (bytes[at + 12] / 16) as int);
    assert(bytes[at + 15] as int / 16 == (bytes[at + 15] / 16) as int);
    assert(bytes[at + 9] as int % 16 == (bytes[at + 9] % 16) as int);
    assert(bytes[at + 12] as int % 16 == (bytes[at + 12] % 16) as int);
    assert(bytes[at + 15] as int % 16 == (bytes[at + 15] % 16) as int);
}

/// What the segments from one on add to what was read before.
spec fn reads_on(
    bytes: Seq<u8>,
    trail: Seq<Segment>,
    i: int,
    frame: Option<FrameModel>,
    interval: Option<int>,
    header: HeaderModel,
) -> bool {
    &&& header.entropy_start == trail.last().end
    &&& (forall|k: int|
        i <= k < trail.len() ==> bytes[(#[trigger] trail[k]).code] != 0xC0) ==> header.frame
        == frame
    &&& forall|k: int|
        i <= k < trail.len() && bytes[(#[trigger] trail[k]).code] == 0xC0 ==> header.frame == Some(
            frame_in(bytes, trail[k]),
        )
    &&& (forall|k: int|
        i <= k < trail.len() ==> bytes[(#[trigger] trail[k]).code] != 0xDD) ==> header.interval
        == interval
    &&& forall|k: int|
        i <= k < trail.len() && bytes[(#[trigger] trail[k]).code] == 0xDD && (forall|m: int|
            k < m < trail.len() ==> bytes[(#[trigger] trail[m]).code] != 0xDD) ==> header.interval
            == Some(be16(bytes, trail[k].code + 3))
}

/// Whether the segments from one on can be read after what was read before.
spec fn is_readable(
    bytes: Seq<u8>,
    trail: Seq<Segment>,
    i: int,
    frame: Option<FrameModel>,
) -> bool {
    &&& forall|k: int|
        i <= k < trail.len() && bytes[(#[trigger] trail[k]).code] == 0xC0 ==> is_splittable_frame(
            bytes,
            trail[k],
        ) && frame is None
    &&& forall|k: int, m: int|
        i <= k < m < trail.len() && bytes[(#[trigger] trail[k]).code] == 0xC0 ==> bytes[(
        #[trigger] trail[m]).code] != 0xC0
    &&& forall|k: int|
        i <= k < trail.len() && bytes[(#[trigger] trail[k]).code] == 0xDD ==> trail[k].end
            == trail[k].code + 5
}

proof fn lemma_segment_is_read(
    bytes: Seq<u8>,
    segment: Segment,
    frame: Option<FrameModel>,
    interval: Option<int>,
)
    requires
        stands(bytes, segment),
        may_precede_the_scan(bytes[segment.code]),
        bytes[segment.code] != 0xDA,
    ensures
        ({
            let marker = bytes[segment.code];
            let header = header_at(bytes, segment.start, frame, interval);
            &&& marker == 0xC0 && is_splittable_frame(bytes, segment) && frame is None ==> header
                == header_at(bytes, segment.end, Some(frame_in(bytes, segment)), interval)
            &&& marker == 0xC0 && !(is_splittable_frame(bytes, segment) && frame is None)
                ==> header is None
            &&& marker == 0xDD && segment.end == segment.code + 5 ==> header == header_at(
                bytes,
                segment.end,
                frame,
                Some(be16(bytes, segment.code + 3)),
            )
            &&& marker == 0xDD && segment.end != segment.code + 5 ==> header is None
            &&& marker != 0xC0 && marker != 0xDD ==> header == header_at(
                bytes,
                segment.end,
                frame,
                interval,
            )
        }),
{
    assert(bytes[segment.start] == 0xFF);
    lemma_marker_found(bytes, segment.start + 1, segment.code);
    lemma_marker_at(bytes, segment.start + 1);
    if bytes[segment.code] == 0xC0 {
        lemma_splittable(bytes, segment);
    }
}

proof fn lemma_readable_step(
    bytes: Seq<u8>,
    trail: Seq<Segment>,
    i: int,
    frame: Option<FrameModel>,
    next: Option<FrameModel>,
)
    requires
        0 <= i < trail.len(),
        bytes[trail[i].code] == 0xC0 ==> frame is None && next is Some && is_splittable_frame(
            bytes,
            trail[i],
        ),
        bytes[trail[i].code] == 0xDD ==> trail[i].end == trail[i].code + 5,
        bytes[trail[i].code] != 0xC0 ==> next == frame,
    ensures
        is_readable(bytes, trail, i, frame) <==> is_readable(bytes, trail, i + 1, next),
{
    if is_readable(bytes, trail, i, frame) {
        assert forall|k: int|
            i + 1 <= k < trail.len() && bytes[(
            #[trigger] trail[k]).code] == 0xC0 implies is_splittable_frame(bytes, trail[k])
            && next is None by {
            assert(trail[i].code == trail[i].code);
        }
        assert(is_readable(bytes, trail, i + 1, next));
    }
    if is_readable(bytes, trail, i + 1, next) {
        assert forall|k: int, m: int|
            i <= k < m < trail.len() && bytes[(#[trigger] trail[k]).code] == 0xC0 implies bytes[(
        #[trigger] trail[m]).code] != 0xC0 by {
            if k == i {
                assert(next is Some);
            }
        }
        assert(is_readable(bytes, trail, i, frame));
    }
}

proof fn lemma_reads_on_step(
    bytes: Seq<u8>,
    trail: Seq<Segment>,
    i: int,
    before: (Option<FrameModel>, Option<int>),
    after: (Option<FrameModel>, Option<int>),
    header: HeaderModel,
)
    requires
        0 <= i < trail.len(),
        is_readable(bytes, trail, i, before.0),
        reads_on(bytes, trail, i + 1, after.0, after.1, header),
        after.0 == if bytes[trail[i].code] == 0xC0 {
            Some(frame_in(bytes, trail[i]))
        } else {
            before.0
        },
        after.1 == if bytes[trail[i].code] == 0xDD {
            Some(be16(bytes, trail[i].code + 3))
        } else {
            before.1
        },
    ensures
        reads_on(bytes, trail, i, before.0, before.1, header),
{
    assert forall|k: int|
        i <= k < trail.len() && bytes[(#[trigger] trail[k]).code] == 0xC0 implies header.frame
        == Some(frame_in(bytes, trail[k])) by {
        if k == i {
            assert forall|m: int| i + 1 <= m < trail.len() implies bytes[(
            #[trigger] trail[m]).code] != 0xC0 by {
                assert(trail[k].code == trail[k].code);
            }
        }
    }
    if forall|k: int| i <= k < trail.len() ==> bytes[(#[trigger] trail[k]).code] != 0xC0 {
        assert(bytes[trail[i].code] != 0xC0);
        assert(header.frame == before.0);
    }
    if forall|k: int| i <= k < trail.len() ==> bytes[(#[trigger] trail[k]).code] != 0xDD {
        assert(bytes[trail[i].code] != 0xDD);
        assert(header.interval == before.1);
    }
}

proof fn lemma_trail_is_read(
    bytes: Seq<u8>,
    at: int,
    trail: Seq<Segment>,
    i: int,
    frame: Option<FrameModel>,
    interval: Option<int>,
)
    requires
        leads_to_the_scan(bytes, at, trail),
        0 <= i < trail.len(),
    ensures
        header_at(bytes, trail[i].start, frame, interval) is Some <==> is_readable(
            bytes,
            trail,
            i,
            frame,
        ),
        header_at(bytes, trail[i].start, frame, interval) matches Some(header) ==> reads_on(
            bytes,
            trail,
            i,
            frame,
            interval,
            header,
        ),
    decreases trail.len() - i,
{
    let segment = trail[i];
    assert(stands(bytes, segment) && may_precede_the_scan(bytes[segment.code]));
    let marker = bytes[segment.code];
    if i == trail.len() - 1 {
        lemma_scan_is_read(bytes, segment, frame, interval);
        assert(trail.last() == segment);
        assert(is_readable(bytes, trail, i, frame));
    } else {
        assert(follows(trail, i + 1));
        lemma_segment_is_read(bytes, segment, frame, interval);
        if marker == 0xC0 && !(is_splittable_frame(bytes, segment) && frame is None) {
            assert(!is_readable(bytes, trail, i, frame));
        } else if marker == 0xDD && segment.end != segment.code + 5 {
            assert(!is_readable(bytes, trail, i, frame));
        } else {
            let next = if marker == 0xC0 {
                Some(frame_in(bytes, segment))
            } else {
                frame
            };
            let count = if marker == 0xDD {
                Some(be16(bytes, segment.code + 3))
            } else {
                interval
            };
            lemma_trail_is_read(bytes, at, trail, i + 1, next, count);
            lemma_readable_step(bytes, trail, i, frame, next);
            if let Some(header) = header_at(bytes, segment.start, frame, interval) {
                lemma_reads_on_step(
                    bytes,
                    trail,
                    i,
                    (frame, interval),
                    (next, count),
                    header,
                );
            }
        }
    }
}

proof fn lemma_scan_is_read(
    bytes: Seq<u8>,
    segment: Segment,
    frame: Option<FrameModel>,
    interval: Option<int>,
)
    requires
        stands(bytes, segment),
        bytes[segment.code] == 0xDA,
    ensures
        header_at(bytes, segment.start, frame, interval) == Some(
            HeaderModel { entropy_start: segment.end, frame, interval },
        ),
{
    assert(bytes[segment.start] == 0xFF);
    lemma_marker_found(bytes, segment.start + 1, segment.code);
    lemma_marker_at(bytes, segment.start + 1);
}

proof fn lemma_trail_exists(
    bytes: Seq<u8>,
    at: int,
    frame: Option<FrameModel>,
    interval: Option<int>,
) -> (trail: Seq<Segment>)
    requires
        0 <= at,
        header_at(bytes, at, frame, interval) is Some,
    ensures
        leads_to_the_scan(bytes, at, trail),
    decreases bytes.len() - at,
{
    lemma_marker_at(bytes, at + 1);
    lemma_fill_before(bytes, at + 1);
    let code = marker_at(bytes, at + 1)->0;
    let marker = bytes[code];
    let next = code + 1;
    if is_standalone(marker) {
        let rest = lemma_trail_exists(bytes, next, frame, interval);
        let first = Segment { start: at, code, end: next };
        lemma_longer_trail(bytes, first, rest);
        seq![first] + rest
    } else {
        let len = segment_len(bytes, next)->0;
        let first = Segment { start: at, code, end: next + len };
        assert(stands(bytes, first));
        assert(may_precede_the_scan(marker));
        if marker == 0xDA {
            seq![first]
        } else {
            let rest = if marker == 0xC0 {
                lemma_trail_exists(bytes, next + len, frame_at(bytes, next, len), interval)
            } else if marker == 0xDD {
                lemma_trail_exists(bytes, next + len, frame, Some(be16(bytes, next + 2)))
            } else {
                lemma_trail_exists(bytes, next + len, frame, interval)
            };
            lemma_longer_trail(bytes, first, rest);
            seq![first] + rest
        }
    }
}

proof fn lemma_longer_trail(bytes: Seq<u8>, first: Segment, rest: Seq<Segment>)
    requires
        stands(bytes, first),
        may_precede_the_scan(bytes[first.code]),
        bytes[first.code] != 0xDA,
        leads_to_the_scan(bytes, first.end, rest),
    ensures
        leads_to_the_scan(bytes, first.start, seq![first] + rest),
{
    let trail = seq![first] + rest;
    assert forall|k: int| 0 <= k < trail.len() implies stands(bytes, #[trigger] trail[k])
        && may_precede_the_scan(bytes[trail[k].code]) by {
        if k > 0 {
            assert(trail[k] == rest[k - 1]);
        }
    }
    assert forall|k: int| 0 <= k < trail.len() implies (bytes[(#[trigger] trail[k]).code] == 0xDA
        <==> k == trail.len() - 1) by {
        if k > 0 {
            assert(trail[k] == rest[k - 1]);
        }
    }
    assert forall|k: int| 0 < k < trail.len() implies #[trigger] follows(trail, k) by {
        assert(trail[k] == rest[k - 1]);
        if k > 1 {
            assert(follows(rest, k - 1));
            assert(trail[k - 1] == rest[k - 2]);
        }
    }
}

/// Whether rows split the entropy data from a position on: they follow one another, each
/// ended by a restart marker and the last one by the end of the image, and hold no
/// other marker: a byte of all ones in them is stuffed or a fill byte.
pub open spec fn splits(bytes: Seq<u8>, from: int, rows: Seq<Span>) -> bool {
    &&& rows.len() > 0 && rows[0].start == from
    &&& forall|i: int| 0 <= i < rows.len() ==> #[trigger] is_row(bytes, rows[i])
    &&& forall|i: int| 0 < i < rows.len() ==> #[trigger] is_next_row(rows, i)
    &&& forall|i: int|
        0 <= i < rows.len() - 1 ==> 0xD0 <= bytes[(#[trigger] rows[i]).end + 1] && bytes[rows[i].end
            + 1] <= 0xD7
    &&& bytes[rows.last().end + 1] == 0xD9
}

/// Whether a row starts behind the marker that ends the one before it.
pub open spec fn is_next_row(rows: Seq<Span>, i: int) -> bool {
    rows[i].start == rows[i - 1].end + 2
}

/// Whether a row holds no marker and is ended by one.
pub open spec fn is_row(bytes: Seq<u8>, row: Span) -> bool {
    &&& row.start <= row.end && row.end + 1 < bytes.len()
    &&& bytes[row.end as int] == 0xFF
    &&& forall|p: int| row.start <= p < row.end ==> #[trigger] is_stuffed(bytes, p)
}

/// Whether a byte starts no marker.
pub open spec fn is_stuffed(bytes: Seq<u8>, p: int) -> bool {
    bytes[p] == 0xFF ==> bytes[p + 1] == 0x00 || bytes[p + 1] == 0xFF
}

proof fn lemma_split_is_read(bytes: Seq<u8>, from: int, rows: Seq<Span>, i: int, p: int)
    requires
        splits(bytes, from, rows),
        0 <= from,
        0 <= i < rows.len(),
        rows[i].start <= p <= rows[i].end,
    ensures
        rows_at(bytes, p, rows[i].start as int, rows.take(i)) == Some(rows),
    decreases bytes.len() - p,
{
    let row = rows[i];
    assert(is_row(bytes, row));
    if p < row.end {
        assert(is_stuffed(bytes, p));
        lemma_split_is_read(bytes, from, rows, i, p + 1);
    } else {
        assert(Span { start: (row.start as int) as usize, end: (row.end as int) as usize } == row);
        if i < rows.len() - 1 {
            let next = rows[i + 1];
            assert(is_row(bytes, next));
            assert(is_next_row(rows, i + 1));
            lemma_split_is_read(bytes, from, rows, i + 1, next.start as int);
            assert(rows.take(i).push(row) =~= rows.take(i + 1));
            assert(rows_at(bytes, p, row.start as int, rows.take(i)) == rows_at(
                bytes,
                p + 1,
                p + 2,
                rows.take(i + 1),
            ));
            assert(rows_at(bytes, p + 1, p + 2, rows.take(i + 1)) == rows_at(
                bytes,
                p + 2,
                p + 2,
                rows.take(i + 1),
            ));
        } else {
            assert(rows.last() == row);
            assert(rows.take(i).push(row) =~= rows);
        }
    }
}

/// Whether rows split the entropy data as far as it was read.
spec fn splits_so_far(bytes: Seq<u8>, from: int, start: int, at: int, done: Seq<Span>) -> bool {
    &&& 0 <= from <= start && 0 <= at && start <= at + 1
    &&& start == at + 1 ==> at < bytes.len() && bytes[at] != 0xFF
    &&& done.len() == 0 ==> start == from
    &&& done.len() > 0 ==> done[0].start == from && start == done.last().end + 2
    &&& forall|i: int| 0 <= i < done.len() ==> #[trigger] is_row(bytes, done[i])
    &&& forall|i: int| 0 < i < done.len() ==> #[trigger] is_next_row(done, i)
    &&& forall|i: int|
        0 <= i < done.len() ==> 0xD0 <= bytes[(#[trigger] done[i]).end + 1] && bytes[done[i].end + 1]
            <= 0xD7
    &&& forall|p: int| start <= p < at ==> #[trigger] is_stuffed(bytes, p)
}

proof fn lemma_read_splits(bytes: Seq<u8>, from: int, start: int, at: int, done: Seq<Span>)
    requires
        bytes.len() <= usize::MAX,
        splits_so_far(bytes, from, start, at, done),
        rows_at(bytes, at, start, done) is Some,
    ensures
        splits(bytes, from, rows_at(bytes, at, start, done)->0),
    decreases bytes.len() - at,
{
    let code = bytes[at + 1];
    let row = Span { start: start as usize, end: at as usize };
    if bytes[at] != 0xFF || code == 0x00 || code == 0xFF {
        lemma_read_splits(bytes, from, start, at + 1, done);
    } else {
        assert(is_row(bytes, row));
        let more = done.push(row);
        assert forall|i: int| 0 <= i < more.len() implies #[trigger] is_row(bytes, more[i]) by {
            if i < done.len() {
                assert(more[i] == done[i]);
            }
        }
        assert forall|i: int| 0 < i < more.len() implies #[trigger] is_next_row(more, i) by {
            if i < done.len() {
                assert(is_next_row(done, i));
                assert(more[i] == done[i] && more[i - 1] == done[i - 1]);
            } else {
                assert(more[i - 1] == done.last());
            }
        }
        if 0xD0 <= code <= 0xD7 {
            assert(splits_so_far(bytes, from, at + 2, at + 1, more));
            lemma_read_splits(bytes, from, at + 2, at + 1, more);
        } else {
            assert(more.last() == row);
            assert forall|i: int| 0 <= i < more.len() - 1 implies 0xD0 <= bytes[(
            #[trigger] more[i]).end + 1] && bytes[more[i].end + 1] <= 0xD7 by {
                assert(more[i] == done[i]);
            }
        }
    }
}

/// Whether a number of parts of some size is what a length takes.
pub open spec fn takes(parts: int, size: int, length: int) -> bool {
    (parts - 1) * size < length <= parts * size
}

/// The largest horizontal sampling factor of a frame.
pub open spec fn is_widest(bytes: Seq<u8>, frame: Segment, factor: int) -> bool {
    let at = frame.code + 1;
    &&& factor >= bytes[at + 9] / 16 && factor >= bytes[at + 12] / 16 && factor >= bytes[at + 15]
        / 16
    &&& factor == bytes[at + 9] / 16 || factor == bytes[at + 12] / 16 || factor == bytes[at + 15]
        / 16
}

/// Whether a stream can be split into rows: it starts an image; its segments lead to a
/// scan of at least 256 KiB with the rest of the stream; one of them is a frame that
/// can be split, with a width and a height; the last restart interval among them is
/// what one row of the frame takes; and the rows of the scan are as many as the height
/// takes, and more than one.
pub open spec fn can_be_split(
    bytes: Seq<u8>,
    trail: Seq<Segment>,
    f: int,
    d: int,
    factor: int,
    rows: Seq<Span>,
) -> bool {
    let frame = trail[f].code + 1;
    let height = bytes[frame + 3] * 256 + bytes[frame + 4];
    let width = bytes[frame + 5] * 256 + bytes[frame + 6];
    let restart = trail[d].code + 1;
    let interval = bytes[restart + 2] * 256 + bytes[restart + 3];
    &&& bytes.len() >= 4 && bytes[0] == 0xFF && bytes[1] == 0xD8
    &&& leads_to_the_scan(bytes, 2, trail) && is_plain_trail(bytes, trail)
    &&& 0 <= f < trail.len() && bytes[trail[f].code] == 0xC0 && width > 0 && height > 0
    &&& 0 <= d < trail.len() && bytes[trail[d].code] == 0xDD
    &&& forall|m: int| d < m < trail.len() ==> bytes[(#[trigger] trail[m]).code] != 0xDD
    &&& is_widest(bytes, trail[f], factor) && takes(interval, 8 * factor, width)
    &&& bytes.len() - trail.last().end >= 256 * 1024
    &&& splits(bytes, trail.last().end, rows) && takes(rows.len() as int, 8, height) && rows.len()
        >= 2
}

pub(crate) proof fn lemma_takes(a: int, b: int, q: int)
    requires
        0 < a,
        0 < b,
    ensures
        ceil_div(a, b) == q <==> takes(q, b, a),
{
    lemma_ceil_div(a, b);
    let c = ceil_div(a, b);
    assert((c - 1) * b == c * b - b) by (nonlinear_arith);
    assert(takes(c, b, a));
    if takes(q, b, a) && q != c {
        if q < c {
            assert(q * b <= (c - 1) * b) by (nonlinear_arith)
                requires
                    q <= c - 1,
                    0 < b,
            ;
        } else {
            assert(c * b <= (q - 1) * b) by (nonlinear_arith)
                requires
                    c <= q - 1,
                    0 < b,
            ;
        }
    }
}

proof fn lemma_header(bytes: Seq<u8>, trail: Seq<Segment>, f: int, d: int)
    requires
        leads_to_the_scan(bytes, 2, trail),
        is_plain_trail(bytes, trail),
        0 <= f < trail.len(),
        bytes[trail[f].code] == 0xC0,
        0 <= d < trail.len(),
        bytes[trail[d].code] == 0xDD,
        forall|m: int| d < m < trail.len() ==> bytes[(#[trigger] trail[m]).code] != 0xDD,
    ensures
        header_at(bytes, 2, None, None) == Some(
            HeaderModel {
                entropy_start: trail.last().end,
                frame: Some(frame_in(bytes, trail[f])),
                interval: Some(be16(bytes, trail[d].code + 3)),
            },
        ),
        is_splittable_frame(bytes, trail[f]),
        stands(bytes, trail[f]),
        stands(bytes, trail[d]),
        stands(bytes, trail.last()),
{
    assert(is_readable(bytes, trail, 0, None));
    lemma_trail_is_read(bytes, 2, trail, 0, None, None);
    assert(reads_on(bytes, trail, 0, None, None, header_at(bytes, 2, None, None)->0));
    assert(stands(bytes, trail[trail.len() - 1]));
}

/// A layout is found only of a stream that can be split, and has the dimensions of its
/// frame, the place of its height, the start of its scan, and its rows.
pub proof fn law_layouts_describe_splittable_streams(bytes: &[u8], layout: ScanLayout) -> (found: (
    Seq<Segment>,
    int,
    int,
    int,
))
    requires
        bytes@.len() <= usize::MAX,
        call_ensures(parse_layout, (bytes,), Some(layout)),
    ensures
        ({
            let (trail, f, d, factor) = found;
            let frame = trail[f].code + 1;
            &&& can_be_split(bytes@, trail, f, d, factor, layout.rows@)
            &&& layout.height == bytes@[frame + 3] * 256 + bytes@[frame + 4]
            &&& layout.width == bytes@[frame + 5] * 256 + bytes@[frame + 6]
            &&& layout.sof_height_offset == frame + 3
            &&& layout.entropy_start == trail.last().end
            &&& layout.mcu_row_px == 8
        }),
{
    let header = header_at(bytes@, 2, None, None)->0;
    let (trail, f, d) = lemma_plain_trail(bytes@);
    lemma_header(bytes@, trail, f, d);
    lemma_splittable(bytes@, trail[f]);
    let start = header.entropy_start;
    lemma_read_splits(bytes@, start, start, start, seq![]);
    let frame = frame_in(bytes@, trail[f]);
    lemma_takes(frame.width, 8 * frame.max_h, header.interval->0);
    lemma_takes(frame.height, 8, layout.rows@.len() as int);
    (trail, f, d, frame.max_h)
}

proof fn lemma_plain_trail(bytes: Seq<u8>) -> (found: (Seq<Segment>, int, int))
    requires
        header_at(bytes, 2, None, None) is Some,
        header_at(bytes, 2, None, None)->0.frame is Some,
        header_at(bytes, 2, None, None)->0.interval is Some,
    ensures
        leads_to_the_scan(bytes, 2, found.0),
        is_plain_trail(bytes, found.0),
        0 <= found.1 < found.0.len(),
        bytes[found.0[found.1].code] == 0xC0,
        0 <= found.2 < found.0.len(),
        bytes[found.0[found.2].code] == 0xDD,
        forall|m: int|
            found.2 < m < found.0.len() ==> bytes[(#[trigger] found.0[m]).code] != 0xDD,
{
    let header = header_at(bytes, 2, None, None)->0;
    let trail = lemma_trail_exists(bytes, 2, None, None);
    lemma_trail_is_read(bytes, 2, trail, 0, None, None);
    assert(is_readable(bytes, trail, 0, None));
    assert(reads_on(bytes, trail, 0, None, None, header));
    let f = choose|k: int| 0 <= k < trail.len() && bytes[(#[trigger] trail[k]).code] == 0xC0;
    assert(exists|k: int| 0 <= k < trail.len() && bytes[(#[trigger] trail[k]).code] == 0xC0);
    let d = lemma_last_interval(bytes, trail, trail.len() as int);
    (trail, f, d)
}

proof fn lemma_last_interval(bytes: Seq<u8>, trail: Seq<Segment>, n: int) -> (d: int)
    requires
        0 <= n <= trail.len(),
        forall|m: int| n <= m < trail.len() ==> bytes[(#[trigger] trail[m]).code] != 0xDD,
    ensures
        -1 <= d < trail.len(),
        forall|m: int| d < m < trail.len() ==> bytes[(#[trigger] trail[m]).code] != 0xDD,
        d >= 0 ==> bytes[trail[d].code] == 0xDD,
    decreases n,
{
    if n == 0 {
        -1
    } else if bytes[trail[n - 1].code] == 0xDD {
        n - 1
    } else {
        lemma_last_interval(bytes, trail, n - 1)
    }
}

/// Every stream that can be split has a layout.
pub proof fn law_splittable_streams_have_a_layout(
    bytes: &[u8],
    layout: Option<ScanLayout>,
    trail: Seq<Segment>,
    f: int,
    d: int,
    factor: int,
    rows: Seq<Span>,
)
    requires
        bytes@.len() <= usize::MAX,
        call_ensures(parse_layout, (bytes,), layout),
        can_be_split(bytes@, trail, f, d, factor, rows),
    ensures
        layout matches Some(layout) && layout.rows@ == rows,
{
    lemma_header(bytes@, trail, f, d);
    lemma_splittable(bytes@, trail[f]);
    let header = header_at(bytes@, 2, None, None)->0;
    let frame = frame_in(bytes@, trail[f]);
    lemma_takes(frame.width, 8 * frame.max_h, header.interval->0);
    lemma_takes(frame.height, 8, rows.len() as int);
    let start = header.entropy_start;
    assert(is_row(bytes@, rows[0]));
    lemma_split_is_read(bytes@, start, rows, 0, start);
    assert(rows.take(0) =~= seq![]);
}

} // verus!
