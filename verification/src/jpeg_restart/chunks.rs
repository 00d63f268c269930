//! Grouping of MCU rows into chunks balanced by entropy bytes, and the choice of
//! the rows that back a requested band.

use vstd::prelude::*;
use vstd::slice::slice_subrange;

use crate::jpeg_restart::{
    ceil_div, div_ceil, larger, lemma_ceil_div, max_usize, LayoutModel, ScanLayout, Span,
    CHUNKS_PER_WORKER,
};

verus! {

/// The smaller of two numbers.
pub open spec fn smaller(a: int, b: int) -> int {
    if a < b {
        a
    } else {
        b
    }
}

fn min_usize(a: usize, b: usize) -> (m: usize)
    ensures
        m == smaller(a as int, b as int),
{
    if a < b {
        a
    } else {
        b
    }
}

/// Product of two numbers, capped at the largest one there is.
fn mul_capped(a: usize, b: usize) -> (product: usize)
    ensures
        product == smaller(a * b, usize::MAX as int),
{
    match a.checked_mul(b) {
        Some(product) => product,
        None => usize::MAX,
    }
}

/// Entropy bytes of the first `n` rows.
pub open spec fn bytes_before(rows: Seq<Span>, n: int) -> int
    decreases n,
{
    if n <= 0 {
        0
    } else {
        bytes_before(rows, n - 1) + rows[n - 1].size()
    }
}

/// Whether no row ends before it starts.
pub open spec fn rows_ordered(rows: Seq<Span>) -> bool {
    forall|i: int| 0 <= i < rows.len() ==> (#[trigger] rows[i]).start <= rows[i].end
}

proof fn lemma_bytes_before_grows(rows: Seq<Span>, m: int, n: int)
    requires
        rows_ordered(rows),
        0 <= m <= n <= rows.len(),
    ensures
        0 <= bytes_before(rows, m) <= bytes_before(rows, n),
    decreases n,
{
    if m < n {
        lemma_bytes_before_grows(rows, m, n - 1);
    } else if m > 0 {
        lemma_bytes_before_grows(rows, m - 1, n - 1);
    }
}

/// Rows of a stream hold no more bytes than the stream itself.
pub(crate) proof fn lemma_bytes_fit(bytes: Seq<u8>, start: int, rows: Seq<Span>, n: int)
    requires
        0 <= start,
        crate::jpeg_restart::rows_in_stream(bytes, start, rows),
        0 <= n <= rows.len(),
    ensures
        rows_ordered(rows),
        bytes_before(rows, n) <= bytes.len(),
        n > 0 ==> bytes_before(rows, n) <= rows[n - 1].end - start,
    decreases n,
{
    if n > 0 {
        lemma_bytes_fit(bytes, start, rows, n - 1);
    }
}

proof fn lemma_bytes_of_subrange(rows: Seq<Span>, from: int, to: int, n: int)
    requires
        0 <= from <= to <= rows.len(),
        0 <= n <= to - from,
    ensures
        bytes_before(rows.subrange(from, to), n) == bytes_before(rows, from + n) - bytes_before(
            rows,
            from,
        ),
    decreases n,
{
    if n > 0 {
        lemma_bytes_of_subrange(rows, from, to, n - 1);
    }
}

/// Number of chunks: the target, but at least one, and at most one per row.
pub open spec fn chunk_count(rows: Seq<Span>, target: int) -> int {
    smaller(larger(target, 1), rows.len() as int)
}

/// Entropy bytes that chunk number `c` and those before it should reach.
pub open spec fn wanted_bytes(rows: Seq<Span>, count: int, c: int) -> int {
    bytes_before(rows, rows.len() as int) / count * (c + 1)
}

/// Whether chunk number `c` starts where it should and ends at the first row
/// that reaches the wanted bytes. Every later chunk keeps at least one row, and
/// the last chunk takes all rows that are left.
pub open spec fn is_balanced(
    rows: Seq<Span>,
    count: int,
    c: int,
    start: int,
    chunk: Span,
) -> bool {
    let last = rows.len() - (count - c - 1);
    let wanted = wanted_bytes(rows, count, c);
    &&& chunk.start == start
    &&& start < chunk.end <= last
    &&& chunk.end == last || (c < count - 1 && bytes_before(rows, chunk.end as int) >= wanted)
    &&& c < count - 1 ==> forall|e: int|
        start < e < chunk.end ==> #[trigger] bytes_before(rows, e) < wanted
}

/// Where chunk number `c` should start: at the end of the one before it.
pub open spec fn start_of(chunks: Seq<Span>, c: int) -> int {
    if c == 0 {
        0
    } else {
        chunks[c - 1].end as int
    }
}

/// Whether chunks group the rows, balanced by entropy bytes.
pub open spec fn is_chunking(rows: Seq<Span>, target: int, chunks: Seq<Span>) -> bool {
    let count = chunk_count(rows, target);
    &&& chunks.len() == count
    &&& forall|c: int|
        0 <= c < count ==> #[trigger] is_balanced(rows, count, c, start_of(chunks, c), chunks[c])
}

/// Whether chunk number `c` starts where the one before it ends.
pub open spec fn follows(chunks: Seq<Span>, c: int) -> bool {
    chunks[c].start == chunks[c - 1].end
}

/// Whether chunks follow one another, none empty, from one row to another.
pub open spec fn tiles(chunks: Seq<Span>, from: int, to: int) -> bool {
    &&& chunks.len() == 0 ==> from == to
    &&& chunks.len() > 0 ==> chunks[0].start == from && chunks.last().end == to
    &&& forall|c: int| 0 <= c < chunks.len() ==> (#[trigger] chunks[c]).start < chunks[c].end
    &&& forall|c: int| 0 < c < chunks.len() ==> #[trigger] follows(chunks, c)
}

/// Chunking covers every row exactly once, in order, without empty chunks.
pub proof fn law_chunks_cover_every_row(rows: Seq<Span>, target: int, chunks: Seq<Span>)
    requires
        rows.len() > 0,
        is_chunking(rows, target, chunks),
    ensures
        1 <= chunks.len() <= rows.len(),
        chunks.len() <= larger(target, 1),
        tiles(chunks, 0, rows.len() as int),
{
    let count = chunk_count(rows, target);
    assert(is_balanced(rows, count, 0, start_of(chunks, 0), chunks[0]));
    assert(is_balanced(
        rows,
        count,
        count - 1,
        start_of(chunks, count - 1),
        chunks[count - 1],
    ));
    assert forall|c: int| 0 <= c < chunks.len() implies (#[trigger] chunks[c]).start
        < chunks[c].end by {
        assert(is_balanced(rows, count, c, start_of(chunks, c), chunks[c]));
    }
    assert forall|c: int| 0 < c < chunks.len() implies #[trigger] follows(chunks, c) by {
        assert(is_balanced(rows, count, c, start_of(chunks, c), chunks[c]));
    }
}

/// The rows and the target determine the chunks.
pub proof fn law_chunking_is_unique(rows: Seq<Span>, target: int, a: Seq<Span>, b: Seq<Span>)
    requires
        rows.len() > 0,
        is_chunking(rows, target, a),
        is_chunking(rows, target, b),
    ensures
        a == b,
{
    lemma_chunking_is_unique(rows, target, a, b, a.len() as int);
    assert(a =~= b);
}

proof fn lemma_chunking_is_unique(
    rows: Seq<Span>,
    target: int,
    a: Seq<Span>,
    b: Seq<Span>,
    n: int,
)
    requires
        rows.len() > 0,
        is_chunking(rows, target, a),
        is_chunking(rows, target, b),
        0 <= n <= a.len(),
    ensures
        forall|i: int| 0 <= i < n ==> a[i] == b[i],
    decreases n,
{
    if n > 0 {
        lemma_chunking_is_unique(rows, target, a, b, n - 1);
        let count = chunk_count(rows, target);
        let x = a[n - 1];
        let y = b[n - 1];
        assert(start_of(a, n - 1) == start_of(b, n - 1));
        assert(is_balanced(rows, count, n - 1, start_of(a, n - 1), x));
        assert(is_balanced(rows, count, n - 1, start_of(b, n - 1), y));
        if x.end < y.end {
            assert(bytes_before(rows, x.end as int) < wanted_bytes(rows, count, n - 1));
        }
        if y.end < x.end {
            assert(bytes_before(rows, y.end as int) < wanted_bytes(rows, count, n - 1));
        }
    }
}

fn row_len(row: Span) -> (len: usize)
    requires
        row.start <= row.end,
    ensures
        len == row.size(),
{
    row.end - row.start
}

/// Entropy bytes of all rows.
fn total_bytes(rows: &[Span]) -> (total: usize)
    requires
        rows_ordered(rows@),
        bytes_before(rows@, rows@.len() as int) <= usize::MAX,
    ensures
        total == bytes_before(rows@, rows@.len() as int),
{
    let mut total: usize = 0;
    let mut i: usize = 0;
    while i < rows.len()
        invariant
            i <= rows@.len(),
            rows_ordered(rows@),
            bytes_before(rows@, rows@.len() as int) <= usize::MAX,
            total == bytes_before(rows@, i as int),
        decreases rows@.len() - i,
    {
        proof {
            lemma_bytes_before_grows(rows@, i + 1, rows@.len() as int);
        }
        total += row_len(rows[i]);
        i += 1;
    }
    total
}

proof fn lemma_wanted_fits(total: int, count: int, c: int)
    requires
        0 <= total,
        0 <= c < count,
    ensures
        0 <= total / count * (c + 1) <= total,
{
    vstd::arithmetic::div_mod::lemma_fundamental_div_mod(total, count);
    let q = total / count;
    let r = total % count;
    assert(0 <= q) by (nonlinear_arith)
        requires
            0 <= total,
            0 < count,
            q == total / count,
    ;
    assert(0 <= q * (c + 1) <= total) by (nonlinear_arith)
        requires
            0 <= q,
            0 <= r,
            0 <= c < count,
            total == count * q + r,
    ;
}

/// Groups consecutive MCU rows into `target_chunks` spans balanced by entropy
/// byte count, so denser rows do not serialize the slowest worker.
pub fn chunk_rows(rows: &[Span], target_chunks: usize) -> (chunks: Vec<Span>)
    requires
        rows@.len() > 0,
        rows_ordered(rows@),
        bytes_before(rows@, rows@.len() as int) <= usize::MAX,
    ensures
        is_chunking(rows@, target_chunks as int, chunks@),
{
    let total: usize = total_bytes(rows);
    let count: usize = min_usize(max_usize(target_chunks, 1), rows.len());
    let mut out: Vec<Span> = Vec::new();
    let mut start: usize = 0;
    let mut cumulative: usize = 0;
    let mut chunk: usize = 0;
    while chunk < count
        invariant
            rows@.len() > 0,
            rows_ordered(rows@),
            total == bytes_before(rows@, rows@.len() as int),
            count == chunk_count(rows@, target_chunks as int),
            1 <= count <= rows@.len(),
            chunk <= count,
            out@.len() == chunk,
            start == start_of(out@, chunk as int),
            start <= rows@.len() - (count - chunk),
            cumulative == bytes_before(rows@, start as int),
            forall|c: int|
                0 <= c < chunk ==> #[trigger] is_balanced(
                    rows@,
                    count as int,
                    c,
                    start_of(out@, c),
                    out@[c],
                ),
        decreases count - chunk,
    {
        // Later chunks must keep at least one row each.
        let max_end: usize = rows.len() - (count - chunk - 1);
        proof {
            lemma_wanted_fits(total as int, count as int, chunk as int);
            lemma_bytes_before_grows(rows@, start + 1, rows@.len() as int);
        }
        let want: usize = total / count * (chunk + 1);
        // The last chunk takes what rounding left over.
        let last: bool = chunk + 1 == count;
        cumulative += row_len(rows[start]);
        let mut end: usize = start + 1;
        while end < max_end && (last || cumulative < want)
            invariant
                rows_ordered(rows@),
                total == bytes_before(rows@, rows@.len() as int),
                start < end <= max_end <= rows@.len(),
                cumulative == bytes_before(rows@, end as int),
                !last ==> forall|e: int|
                    start < e < end ==> #[trigger] bytes_before(rows@, e) < want,
            decreases max_end - end,
        {
            proof {
                lemma_bytes_before_grows(rows@, end + 1, rows@.len() as int);
            }
            cumulative += row_len(rows[end]);
            end += 1;
        }
        let ghost before = out@;
        out.push(Span { start, end });
        proof {
            assert forall|c: int| 0 <= c < chunk + 1 implies #[trigger] is_balanced(
                rows@,
                count as int,
                c,
                start_of(out@, c),
                out@[c],
            ) by {
                assert(start_of(out@, c) == start_of(before, c));
                if c < chunk {
                    assert(is_balanced(rows@, count as int, c, start_of(before, c), before[c]));
                }
            }
        }
        start = end;
        chunk += 1;
    }
    out
}

/// Chunk target for a region, proportional to its entropy bytes.
pub open spec fn region_target(rows: Seq<Span>, total_target: int, region: int) -> int {
    let total = bytes_before(rows, rows.len() as int);
    if total == 0 {
        1
    } else {
        larger(ceil_div(smaller(total_target * region, usize::MAX as int), total), 1)
    }
}

/// Chunks of a region counted from the region's first row.
pub open spec fn rebased(chunks: Seq<Span>, from: int) -> Seq<Span> {
    chunks.map_values(
        |chunk: Span|
            Span { start: (chunk.start - from) as usize, end: (chunk.end - from) as usize },
    )
}

/// Whether chunks group the rows of a region.
pub open spec fn is_region_chunking(
    rows: Seq<Span>,
    from: int,
    to: int,
    total_target: int,
    minimum: int,
    chunks: Seq<Span>,
) -> bool {
    &&& tiles(chunks, from, to)
    &&& from < to ==> is_chunking(
        rows.subrange(from, to),
        larger(
            region_target(
                rows,
                total_target,
                bytes_before(rows, to) - bytes_before(rows, from),
            ),
            minimum,
        ),
        rebased(chunks, from),
    )
}

/// Groups the rows of a region into chunks.
pub(crate) fn chunk_region(
    rows: &[Span],
    from: usize,
    to: usize,
    total_target: usize,
    minimum: usize,
) -> (chunks: Vec<Span>)
    requires
        from <= to <= rows@.len(),
        rows_ordered(rows@),
        bytes_before(rows@, rows@.len() as int) <= usize::MAX,
    ensures
        is_region_chunking(
            rows@,
            from as int,
            to as int,
            total_target as int,
            minimum as int,
            chunks@,
        ),
{
    let mut out: Vec<Span> = Vec::new();
    if from == to {
        return out;
    }
    let total: usize = total_bytes(rows);
    let region = slice_subrange(rows, from, to);
    proof {
        lemma_bytes_of_subrange(rows@, from as int, to as int, to - from);
        lemma_bytes_before_grows(rows@, from as int, to as int);
        lemma_bytes_before_grows(rows@, to as int, rows@.len() as int);
        lemma_bytes_before_grows(rows@, 0, from as int);
        assert(rows_ordered(region@));
    }
    let region_bytes: usize = total_bytes(region);
    let target: usize = if total == 0 {
        1
    } else {
        let scaled: usize = mul_capped(total_target, region_bytes);
        max_usize(div_ceil(scaled, total), 1)
    };
    let chunks = chunk_rows(region, max_usize(target, minimum));
    proof {
        law_chunks_cover_every_row(
            region@,
            larger(target as int, minimum as int),
            chunks@,
        );
    }
    let mut i: usize = 0;
    while i < chunks.len()
        invariant
            i <= chunks@.len(),
            out@.len() == i,
            to <= rows@.len(),
            to - from == region@.len(),
            region@.len() + from <= usize::MAX,
            tiles(chunks@, 0, region@.len() as int),
            forall|c: int|
                0 <= c < i ==> (#[trigger] out@[c]).start == chunks@[c].start + from && out@[c].end
                    == chunks@[c].end + from,
        decreases chunks@.len() - i,
    {
        let chunk = chunks[i];
        proof {
            lemma_tile_bounds(chunks@, 0, region@.len() as int, i as int);
        }
        out.push(Span { start: chunk.start + from, end: chunk.end + from });
        i += 1;
    }
    proof {
        assert forall|c: int| 0 < c < out@.len() implies #[trigger] follows(out@, c) by {
            assert(follows(chunks@, c));
        }
        assert(tiles(out@, from as int, to as int));
        assert(rebased(out@, from as int) =~= chunks@);
    }
    out
}

/// Chunks that tile a range lie within it.
pub(crate) proof fn lemma_tile_bounds(chunks: Seq<Span>, from: int, to: int, c: int)
    requires
        tiles(chunks, from, to),
        0 <= c < chunks.len(),
    ensures
        from <= chunks[c].start < chunks[c].end <= to,
{
    lemma_tile_from(chunks, from, to, c);
    lemma_tile_to(chunks, from, to, c);
}

proof fn lemma_tile_from(chunks: Seq<Span>, from: int, to: int, c: int)
    requires
        tiles(chunks, from, to),
        0 <= c < chunks.len(),
    ensures
        from <= chunks[c].start,
    decreases c,
{
    if c > 0 {
        lemma_tile_from(chunks, from, to, c - 1);
        assert(follows(chunks, c));
    }
}

proof fn lemma_tile_to(chunks: Seq<Span>, from: int, to: int, c: int)
    requires
        tiles(chunks, from, to),
        0 <= c < chunks.len(),
    ensures
        chunks[c].end <= to,
    decreases chunks.len() - c,
{
    if c + 1 < chunks.len() {
        lemma_tile_to(chunks, from, to, c + 1);
        assert(follows(chunks, c + 1));
    } else {
        assert(chunks.last() == chunks[c]);
    }
}

// ---------------------------------------------------------------------------
// Bands
// ---------------------------------------------------------------------------

/// Advisory request to decode one horizontal band of the frame first.
///
/// `y0..y1` are the pixel rows that the consumer shows. `align_px` expands the
/// band outward to the consumer's tile grid (which starts at row 0) and
/// `gutter_px` adds the consumer's sampling gutter, so the published rows can
/// back complete tiles rather than partial ones.
#[derive(Debug, Clone, Copy, PartialEq, Eq, Structural)]
pub struct BandRequest {
    pub y0: usize,
    pub y1: usize,
    pub align_px: u32,
    pub gutter_px: u32,
}

/// First pixel row of the tiles that the band touches, less the gutter.
pub open spec fn band_top(layout: LayoutModel, band: BandRequest) -> int {
    let align = larger(band.align_px as int, 1);
    larger(smaller(band.y0 as int, layout.height) / align * align - band.gutter_px, 0)
}

/// End of the tiles that the band touches, with the gutter, within the frame.
pub open spec fn band_bottom(layout: LayoutModel, band: BandRequest) -> int {
    let align = larger(band.align_px as int, 1);
    smaller(
        smaller(
            ceil_div(smaller(band.y1 as int, layout.height), align) * align,
            layout.height,
        ) + band.gutter_px,
        layout.height,
    )
}

/// The MCU rows of a band request. There are none where the request is empty or
/// covers the whole frame.
pub open spec fn band_rows_of(layout: LayoutModel, band: BandRequest) -> Option<Span> {
    let r0 = band_top(layout, band) / 8;
    let r1 = smaller(ceil_div(band_bottom(layout, band), 8), layout.rows.len() as int);
    if smaller(band.y1 as int, layout.height) <= smaller(band.y0 as int, layout.height) || r0 >= r1
        || (r0 == 0 && r1 == layout.rows.len()) {
        None
    } else {
        Some(Span { start: r0 as usize, end: r1 as usize })
    }
}

/// Expands a band request to whole MCU rows aligned to the consumer's tile grid,
/// returning `None` when the request is degenerate or covers the whole frame:
/// both decode in a single phase.
pub fn band_mcu_rows(layout: &ScanLayout, band: BandRequest) -> (rows: Option<Span>)
    requires
        layout.mcu_row_px == 8,
    ensures
        rows == band_rows_of(layout@, band),
        rows matches Some(span) ==> span.start < span.end <= layout@.rows.len(),
{
    let height: usize = layout.height;
    let y0: usize = min_usize(band.y0, height);
    let y1: usize = min_usize(band.y1, height);
    if y1 <= y0 {
        return None;
    }
    // The consumer's tile grid starts at row 0, so aligning outward keeps every
    // touched tile row fully inside the band.
    let align: usize = max_usize(band.align_px as usize, 1);
    proof {
        vstd::arithmetic::div_mod::lemma_fundamental_div_mod(y0 as int, align as int);
        let q = y0 as int / align as int;
        let r = y0 as int % align as int;
        assert(0 <= q * align <= y0) by (nonlinear_arith)
            requires
                y0 == align * q + r,
                0 <= r,
                0 <= q,
                0 < align,
        ;
    }
    let top: usize = y0 / align * align;
    let bottom: usize = min_usize(mul_capped(div_ceil(y1, align), align), height);
    // The consumer samples one gutter beyond each tile edge.
    let gutter: usize = band.gutter_px as usize;
    let top: usize = top.saturating_sub(gutter);
    let bottom: usize = min_usize(bottom.saturating_add(gutter), height);
    // Entropy runs exist per whole MCU row only.
    let r0: usize = top / layout.mcu_row_px;
    let r1: usize = min_usize(div_ceil(bottom, layout.mcu_row_px), layout.rows.len());
    if r0 < r1 && !(r0 == 0 && r1 == layout.rows.len()) {
        Some(Span { start: r0, end: r1 })
    } else {
        None
    }
}

/// The rows of a band cover every requested pixel row with its gutter, whole
/// tiles included, and start at an MCU row.
pub proof fn law_band_covers_the_request(layout: LayoutModel, band: BandRequest)
    requires
        layout.rows.len() == ceil_div(layout.height, 8),
        0 <= layout.height <= usize::MAX,
        band_rows_of(layout, band) is Some,
    ensures
        ({
            let rows = band_rows_of(layout, band)->0;
            let align = larger(band.align_px as int, 1);
            let end = smaller(rows.end * 8, layout.height);
            &&& rows.start * 8 <= larger(band.y0 / align as usize * align - band.gutter_px, 0)
            &&& rows.start * 8 <= band.y0
            &&& smaller(band.y1 as int, layout.height) <= end
            &&& smaller(band.y1 + band.gutter_px, layout.height) <= end
        }),
{
    let align = larger(band.align_px as int, 1);
    let y0 = smaller(band.y0 as int, layout.height);
    let y1 = smaller(band.y1 as int, layout.height);
    assert(y0 == band.y0);
    vstd::arithmetic::div_mod::lemma_fundamental_div_mod(y0, align);
    assert(0 <= y0 / align * align <= y0) by (nonlinear_arith)
        requires
            y0 == align * (y0 / align) + y0 % align,
            0 <= y0 % align,
            0 <= y0,
            0 < align,
    ;
    lemma_ceil_div(y1, align);
    lemma_ceil_div(band_bottom(layout, band), 8);
    lemma_ceil_div(layout.height, 8);
}

/// Chunks for the single-phase decode of a whole frame: several per worker.
///
/// Entropy density varies between MCU rows, so exactly one chunk per worker
/// would leave the join waiting on the densest chunk.
pub(crate) fn total_chunk_target(threads: usize) -> (target: usize)
    ensures
        target == chunk_target(threads as int),
{
    mul_capped(threads, CHUNKS_PER_WORKER)
}

/// Number of chunks that a pool of workers aims at.
pub open spec fn chunk_target(threads: int) -> int {
    smaller(threads * CHUNKS_PER_WORKER, usize::MAX as int)
}

// ---------------------------------------------------------------------------
// Sizes of chunks and bands
// ---------------------------------------------------------------------------

/// Entropy bytes of the rows from one to another.
pub open spec fn span_bytes(rows: Seq<Span>, from: int, to: int) -> int
    decreases to - from,
{
    if to <= from {
        0
    } else {
        (rows[from].end - rows[from].start) + span_bytes(rows, from + 1, to)
    }
}

proof fn lemma_span_bytes(rows: Seq<Span>, from: int, to: int)
    requires
        0 <= from <= to <= rows.len(),
    ensures
        span_bytes(rows, from, to) == bytes_before(rows, to) - bytes_before(rows, from),
    decreases to - from,
{
    if from < to {
        lemma_span_bytes(rows, from + 1, to);
    }
}

/// Rows are grouped into as many chunks as asked for, but one at least and one per row at
/// most. The chunks follow one another and take in every row. Each but the last one ends
/// with the first row that brings it and those before it to their share of all bytes,
/// unless the rows behind it are needed for one each.
pub proof fn law_chunks_share_the_bytes(
    rows: &[Span],
    target: usize,
    chunks: Vec<Span>,
    c: int,
    e: int,
)
    requires
        rows@.len() > 0,
        rows_ordered(rows@),
        span_bytes(rows@, 0, rows@.len() as int) <= usize::MAX,
        call_ensures(chunk_rows, (rows, target), chunks),
    ensures
        ({
            let n = rows@.len() as int;
            let count = chunks@.len() as int;
            let share = span_bytes(rows@, 0, n) / count;
            &&& target == 0 ==> count == 1
            &&& 1 <= target <= n ==> count == target
            &&& target > n ==> count == n
            &&& chunks@[0].start == 0 && chunks@[count - 1].end == n
            &&& 0 <= c < count ==> {
                let chunk = chunks@[c];
                &&& chunk.start < chunk.end && count - 1 - c <= n - chunk.end
                &&& c > 0 ==> chunk.start == chunks@[c - 1].end
                &&& c < count - 1 && chunk.end < n - (count - 1 - c) ==> span_bytes(
                    rows@,
                    0,
                    chunk.end as int,
                ) >= share * (c + 1)
                &&& c < count - 1 && chunk.start < e < chunk.end ==> span_bytes(rows@, 0, e) < share
                    * (c + 1)
            }
        }),
{
    let n = rows@.len() as int;
    lemma_span_bytes(rows@, 0, n);
    let count = chunk_count(rows@, target as int);
    assert(is_chunking(rows@, target as int, chunks@));
    law_chunks_cover_every_row(rows@, target as int, chunks@);
    if 0 <= c < count {
        assert(is_balanced(rows@, count, c, start_of(chunks@, c), chunks@[c]));
        lemma_span_bytes(rows@, 0, chunks@[c].end as int);
        if chunks@[c].start < e < chunks@[c].end {
            lemma_span_bytes(rows@, 0, e);
        }
    }
}

/// The rows of a band. Its requested rows are cut at the frame; whole tiles around them
/// are taken in, then a gutter on either side, then whole MCU rows. There is none where
/// nothing is requested or where it is the whole frame.
pub proof fn law_bands_take_in_whole_tiles(
    layout: &ScanLayout,
    band: BandRequest,
    rows: Option<Span>,
    align: int,
    top: int,
    bottom: int,
)
    requires
        layout.mcu_row_px == 8,
        call_ensures(band_mcu_rows, (layout, band), rows),
        layout.rows@.len() == ceil_div(layout.height as int, 8),
        align == if band.align_px == 0 {
            1
        } else {
            band.align_px as int
        },
        top * align <= band.y0 < (top + 1) * align,
        (bottom - 1) * align < band.y1 <= bottom * align,
    ensures
        ({
            let height = layout.height as int;
            let gutter = band.gutter_px as int;
            let empty = band.y0 >= band.y1 || band.y0 >= height;
            let first = if top * align <= gutter {
                0
            } else {
                top * align - gutter
            };
            let last = if bottom * align + gutter <= height {
                bottom * align + gutter
            } else {
                height
            };
            &&& empty ==> rows is None
            &&& rows matches Some(span) ==> {
                &&& span.start * 8 <= first < span.start * 8 + 8
                &&& (span.end - 1) * 8 < last <= span.end * 8
                &&& !(first < 8 && last > height - 1 - (height - 1) % 8)
            }
            &&& rows is None && !empty ==> first < 8 && last > height - 1 - (height - 1) % 8
        }),
{
    let height = layout.height as int;
    let gutter = band.gutter_px as int;
    lemma_ceil_div(height, 8);
    if band.y0 < band.y1 && band.y0 < height {
        let y0 = band.y0 as int;
        vstd::arithmetic::div_mod::lemma_fundamental_div_mod(y0, align);
        let q = y0 / align;
        assert(q == top) by (nonlinear_arith)
            requires
                y0 == align * q + y0 % align,
                0 <= y0 % align < align,
                top * align <= y0 < (top + 1) * align,
                0 < align,
        ;
        let y1 = smaller(band.y1 as int, height);
        lemma_ceil_div(y1, align);
        let c = ceil_div(y1, align);
        assert((c - 1) * align == c * align - align) by (nonlinear_arith);
        assert(top >= 0) by (nonlinear_arith)
            requires
                0 <= y0 < (top + 1) * align,
                0 < align,
        ;
        assert(0 <= top * align) by (nonlinear_arith)
            requires
                0 <= top,
                0 < align,
        ;
        if band.y1 <= height {
            assert(c == bottom) by (nonlinear_arith)
                requires
                    (c - 1) * align < y1 <= c * align,
                    (bottom - 1) * align < y1 <= bottom * align,
                    0 < align,
            ;
        } else {
            assert(c * align >= height);
            assert(bottom * align >= height);
        }
        lemma_ceil_div(band_bottom(layout@, band), 8);
    }
}

/// A pool aims at six chunks for each of its workers, as far as numbers go.
pub(crate) proof fn law_pools_aim_at_six_chunks_a_worker(threads: usize, target: usize)
    requires
        call_ensures(total_chunk_target, (threads,), target),
    ensures
        threads * 6 <= usize::MAX ==> target == threads * 6,
        threads * 6 > usize::MAX ==> target == usize::MAX,
{
}

/// A region gets the share of all chunks that it has of all bytes, rounded up, but the
/// minimum and one at least, and one per row at most.
pub(crate) proof fn law_regions_get_their_share(
    rows: &[Span],
    from: usize,
    to: usize,
    total_target: usize,
    minimum: usize,
    chunks: Vec<Span>,
    share: int,
)
    requires
        from < to <= rows@.len(),
        rows_ordered(rows@),
        0 < span_bytes(rows@, 0, rows@.len() as int) <= usize::MAX,
        call_ensures(chunk_region, (rows, from, to, total_target, minimum), chunks),
        ({
            let total = span_bytes(rows@, 0, rows@.len() as int);
            let region = span_bytes(rows@, from as int, to as int);
            &&& 0 < total_target * region <= usize::MAX
            &&& (share - 1) * total < total_target * region <= share * total
        }),
    ensures
        ({
            let least = if share < minimum {
                minimum as int
            } else {
                share
            };
            chunks@.len() == if least < to - from {
                least
            } else {
                to - from
            }
        }),
        chunks@[0].start == from,
        chunks@.last().end == to,
{
    let n = rows@.len() as int;
    lemma_span_bytes(rows@, 0, n);
    lemma_span_bytes(rows@, from as int, to as int);
    let total = span_bytes(rows@, 0, n);
    let asked = total_target * span_bytes(rows@, from as int, to as int);
    lemma_ceil_div(asked, total);
    let c = ceil_div(asked, total);
    assert(c == share && c >= 1) by (nonlinear_arith)
        requires
            (share - 1) * total < asked <= share * total,
            c * total - total < asked <= c * total,
            0 < total,
            0 < asked,
    ;
    assert(is_region_chunking(
        rows@,
        from as int,
        to as int,
        total_target as int,
        minimum as int,
        chunks@,
    ));
}

} // verus!
