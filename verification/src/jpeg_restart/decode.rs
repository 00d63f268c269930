//! Decode of a splittable scan, in one phase or with a band of rows first.

use rayon::iter::{IntoParallelRefIterator, ParallelIterator};
use vstd::prelude::*;
use vstd::slice::slice_subrange;

use crate::codec::{decode_model, decode_rgba, may_decode, DecodeModel};
use crate::jpeg_restart::chunks::{
    band_mcu_rows, band_rows_of, bytes_before, chunk_region, chunk_rows, chunk_target, follows,
    is_chunking, is_region_chunking, law_chunks_cover_every_row, lemma_bytes_fit,
    lemma_tile_bounds, smaller, tiles, total_chunk_target, BandRequest,
};
use crate::jpeg_restart::{
    layout_fits, layout_of, lemma_ceil_div, parse_layout, rows_in_stream, LayoutModel,
    ScanLayout, Span,
};
use crate::text::append_bytes;
use crate::types::{packed, packed_opaque, PixelBuf, PixelModel};

verus! {

// ---------------------------------------------------------------------------
// One chunk
// ---------------------------------------------------------------------------

/// Pixel row at which an MCU row starts, within the frame.
pub open spec fn row_px(layout: LayoutModel, row: int) -> int {
    smaller(row * 8, layout.height)
}

/// Pixel rows of a chunk.
pub open spec fn chunk_height(layout: LayoutModel, chunk: Span) -> int {
    row_px(layout, chunk.end as int) - row_px(layout, chunk.start as int)
}

/// The chunk as a JPEG of its own: the header with the chunk's height, the
/// chunk's entropy bytes, and an end marker.
pub open spec fn mini_jpeg(bytes: Seq<u8>, layout: LayoutModel, chunk: Span) -> Seq<u8> {
    let height = chunk_height(layout, chunk);
    bytes.subrange(0, layout.entropy_start).update(
        layout.height_offset,
        (height / 256) as u8,
    ).update(layout.height_offset + 1, (height % 256) as u8) + bytes.subrange(
        layout.rows[chunk.start as int].start as int,
        layout.rows[chunk.end - 1].end as int,
    ) + seq![0xFFu8, 0xD9u8]
}

/// A chunk ready to decode, with the dimensions it must have.
pub struct Piece {
    pub jpeg: Vec<u8>,
    pub width: usize,
    pub height: usize,
}

/// The pixels that a decode gives for an image of known dimensions.
pub open spec fn pixels_of(decoded: DecodeModel, width: int, height: int) -> Option<Seq<u8>> {
    match decoded {
        Ok((pixels, Some((w, h)))) => if w == width && h == height {
            Some(pixels)
        } else {
            None
        },
        _ => None,
    }
}

/// Whether decoding a stream of known dimensions can give `pixels`, or nothing.
pub open spec fn may_give(
    jpeg: Seq<u8>,
    width: int,
    height: int,
    pixels: Option<Seq<u8>>,
) -> bool {
    exists|decoded: DecodeModel| #[trigger]
        may_decode(jpeg, decoded) && pixels == pixels_of(decoded, width, height)
}

/// The contents of an optional vector.
pub open spec fn opt_view(bytes: Option<Vec<u8>>) -> Option<Seq<u8>> {
    match bytes {
        Some(bytes) => Some(bytes@),
        None => None,
    }
}

/// Decodes one chunk; the result is nothing where the decoder fails or reports
/// other dimensions.
pub fn decode_piece(piece: &Piece) -> (pixels: Option<Vec<u8>>)
    ensures
        may_give(piece.jpeg@, piece.width as int, piece.height as int, opt_view(pixels)),
        pixels matches Some(rgba) ==> rgba@.len() == piece.width * piece.height * 4,
{
    let decoded = decode_rgba(piece.jpeg.as_slice());
    let ghost model = decode_model(decoded);
    proof {
        assert(may_decode(piece.jpeg@, model));
    }
    let pixels: Option<Vec<u8>> = match decoded {
        Ok(rgba) => match rgba.dimensions {
            Some((width, height)) => if width == piece.width && height == piece.height {
                Some(rgba.pixels)
            } else {
                None
            },
            None => None,
        },
        Err(_) => None,
    };
    assert(opt_view(pixels) == pixels_of(model, piece.width as int, piece.height as int));
    pixels
}

/// `rayon::current_num_threads` returns the number of workers of the current
/// pool. Nothing is claimed of the number: it depends on the machine and on the
/// pool.
pub assume_specification[ rayon::current_num_threads ]() -> (threads: usize)
;

/// Wraps rayon's `par_iter`, `map` and `collect` over a slice. Every output is
/// what [`decode_piece`] returned for the input at its position.
#[verifier::external_body]
fn decode_all(pieces: &Vec<Piece>) -> (parts: Vec<Option<Vec<u8>>>)
    ensures
        parts@.len() == pieces@.len(),
        forall|i: int|
            0 <= i < parts@.len() ==> call_ensures(
                decode_piece,
                (&pieces@[i],),
                #[trigger] parts@[i],
            ),
{
    pieces.par_iter().map(|piece| decode_piece(piece)).collect()
}

proof fn lemma_row_px(bytes: Seq<u8>, layout: LayoutModel, row: int)
    requires
        layout_fits(bytes, layout),
        0 <= row <= layout.rows.len(),
    ensures
        0 <= row_px(layout, row) <= layout.height,
        row < layout.rows.len() ==> row_px(layout, row) == row * 8 < layout.height,
        row == layout.rows.len() ==> row_px(layout, row) == layout.height,
{
    lemma_ceil_div(layout.height, 8);
}

proof fn lemma_rows_sorted(bytes: Seq<u8>, layout: LayoutModel, i: int, j: int)
    requires
        rows_in_stream(bytes, layout.entropy_start, layout.rows),
        0 <= i <= j < layout.rows.len(),
    ensures
        layout.rows[i].start <= layout.rows[j].end,
    decreases j - i,
{
    if i < j {
        lemma_rows_sorted(bytes, layout, i, j - 1);
    }
}

/// Builds the JPEG of one chunk.
fn cut_piece(bytes: &[u8], layout: &ScanLayout, chunk: Span) -> (piece: Piece)
    requires
        layout_fits(bytes@, layout@),
        layout.mcu_row_px == 8,
        chunk.start < chunk.end <= layout@.rows.len(),
    ensures
        piece.jpeg@ == mini_jpeg(bytes@, layout@, chunk),
        piece.width == layout.width,
        piece.height == chunk_height(layout@, chunk),
{
    let len: usize = bytes.len();
    proof {
        lemma_row_px(bytes@, layout@, chunk.start as int);
        lemma_row_px(bytes@, layout@, chunk.end as int);
        lemma_rows_sorted(bytes@, layout@, chunk.start as int, chunk.end - 1);
        lemma_ceil_div(layout@.height, 8);
    }
    let start_px: usize = chunk.start * layout.mcu_row_px;
    let end_px: usize = if chunk.end == layout.rows.len() {
        layout.height
    } else {
        chunk.end * layout.mcu_row_px
    };
    let pixel_height: usize = end_px - start_px;
    let mut jpeg: Vec<u8> = Vec::new();
    append_bytes(&mut jpeg, slice_subrange(bytes, 0, layout.entropy_start));
    let high: u8 = (pixel_height / 256) as u8;
    let low: u8 = (pixel_height % 256) as u8;
    jpeg.set(layout.sof_height_offset, high);
    jpeg.set(layout.sof_height_offset + 1, low);
    let from: usize = layout.rows[chunk.start].start;
    let to: usize = layout.rows[chunk.end - 1].end;
    append_bytes(&mut jpeg, slice_subrange(bytes, from, to));
    jpeg.push(0xFF);
    jpeg.push(0xD9);
    proof {
        assert(jpeg@ =~= mini_jpeg(bytes@, layout@, chunk));
    }
    Piece { jpeg, width: layout.width, height: pixel_height }
}

// ---------------------------------------------------------------------------
// Runs of chunks
// ---------------------------------------------------------------------------

/// The parts one after the other, or nothing where one of them is missing.
pub open spec fn joined(parts: Seq<Option<Seq<u8>>>) -> Option<Seq<u8>>
    decreases parts.len(),
{
    if parts.len() == 0 {
        Some(seq![])
    } else {
        match (joined(parts.drop_last()), parts.last()) {
            (Some(before), Some(part)) => Some(before + part),
            _ => None,
        }
    }
}

/// Whether each part can be what decoding its chunk gives.
pub open spec fn parts_of(
    bytes: Seq<u8>,
    layout: LayoutModel,
    chunks: Seq<Span>,
    parts: Seq<Option<Seq<u8>>>,
) -> bool {
    &&& parts.len() == chunks.len()
    &&& forall|i: int|
        0 <= i < parts.len() ==> may_give(
            mini_jpeg(bytes, layout, chunks[i]),
            layout.width,
            chunk_height(layout, chunks[i]),
            #[trigger] parts[i],
        )
}

/// Whether decoding chunks and joining the results can give `pixels`.
pub open spec fn may_join(
    bytes: Seq<u8>,
    layout: LayoutModel,
    chunks: Seq<Span>,
    pixels: Option<Seq<u8>>,
) -> bool {
    exists|parts: Seq<Option<Seq<u8>>>| #[trigger]
        parts_of(bytes, layout, chunks, parts) && pixels == joined(parts)
}

/// The contents of decoded parts.
pub open spec fn part_views(parts: Seq<Option<Vec<u8>>>) -> Seq<Option<Seq<u8>>> {
    parts.map_values(|part: Option<Vec<u8>>| opt_view(part))
}

/// Whether every decoded part has the size of its chunk.
pub open spec fn parts_sized(
    layout: LayoutModel,
    chunks: Seq<Span>,
    parts: Seq<Option<Vec<u8>>>,
) -> bool {
    &&& parts.len() == chunks.len()
    &&& forall|i: int|
        0 <= i < parts.len() ==> ((#[trigger] parts[i]) matches Some(part) ==> part@.len()
            == layout.width * chunk_height(layout, chunks[i]) * 4)
}

fn decode_chunks(bytes: &[u8], layout: &ScanLayout, chunks: &Vec<Span>) -> (parts: Vec<
    Option<Vec<u8>>,
>)
    requires
        layout_fits(bytes@, layout@),
        layout.mcu_row_px == 8,
        forall|i: int|
            0 <= i < chunks@.len() ==> (#[trigger] chunks@[i]).start < chunks@[i].end
                <= layout@.rows.len(),
    ensures
        parts_of(bytes@, layout@, chunks@, part_views(parts@)),
        parts_sized(layout@, chunks@, parts@),
{
    let mut pieces: Vec<Piece> = Vec::new();
    let mut i: usize = 0;
    while i < chunks.len()
        invariant
            i <= chunks@.len(),
            pieces@.len() == i,
            layout_fits(bytes@, layout@),
            layout.mcu_row_px == 8,
            forall|i: int|
                0 <= i < chunks@.len() ==> (#[trigger] chunks@[i]).start < chunks@[i].end
                    <= layout@.rows.len(),
            forall|j: int|
                0 <= j < i ==> (#[trigger] pieces@[j]).jpeg@ == mini_jpeg(
                    bytes@,
                    layout@,
                    chunks@[j],
                ) && pieces@[j].width == layout.width && pieces@[j].height == chunk_height(
                    layout@,
                    chunks@[j],
                ),
        decreases chunks@.len() - i,
    {
        pieces.push(cut_piece(bytes, layout, chunks[i]));
        i += 1;
    }
    let parts = decode_all(&pieces);
    proof {
        let views = part_views(parts@);
        assert forall|j: int| 0 <= j < views.len() implies may_give(
            mini_jpeg(bytes@, layout@, chunks@[j]),
            layout@.width,
            chunk_height(layout@, chunks@[j]),
            #[trigger] views[j],
        ) by {
            assert(call_ensures(decode_piece, (&pieces@[j],), parts@[j]));
        }
        assert forall|j: int| 0 <= j < parts@.len() implies ((#[trigger] parts@[j]) matches Some(
            part,
        ) ==> part@.len() == layout@.width * chunk_height(layout@, chunks@[j]) * 4) by {
            assert(call_ensures(decode_piece, (&pieces@[j],), parts@[j]));
        }
    }
    parts
}

proof fn lemma_joined_missing(parts: Seq<Option<Seq<u8>>>, i: int)
    requires
        0 <= i < parts.len(),
        parts[i] is None,
    ensures
        joined(parts) is None,
    decreases parts.len(),
{
    if i < parts.len() - 1 {
        lemma_joined_missing(parts.drop_last(), i);
    }
}

/// Joins decoded parts.
fn join_parts(
    layout: &ScanLayout,
    chunks: &Vec<Span>,
    parts: &Vec<Option<Vec<u8>>>,
    Ghost(from): Ghost<int>,
    Ghost(to): Ghost<int>,
) -> (pixels: Option<Vec<u8>>)
    requires
        parts_sized(layout@, chunks@, parts@),
        tiles(chunks@, from, to),
    ensures
        opt_view(pixels) == joined(part_views(parts@)),
        pixels matches Some(rgba) ==> rgba@.len() == layout@.width * (row_px(layout@, to) - row_px(
            layout@,
            from,
        )) * 4,
{
    let mut out: Vec<u8> = Vec::new();
    let mut i: usize = 0;
    let ghost mut at: int = from;
    let ghost views = part_views(parts@);
    proof {
        assert(views.take(0) =~= seq![]);
    }
    while i < parts.len()
        invariant
            i <= parts@.len(),
            parts_sized(layout@, chunks@, parts@),
            tiles(chunks@, from, to),
            views == part_views(parts@),
            joined(views.take(i as int)) == Some(out@),
            i < parts@.len() ==> at == chunks@[i as int].start,
            i == parts@.len() ==> at == to,
            out@.len() == layout@.width * (row_px(layout@, at) - row_px(layout@, from)) * 4,
        decreases parts@.len() - i,
    {
        match &parts[i] {
            Some(part) => {
                let ghost before = out@;
                append_bytes(&mut out, part.as_slice());
                proof {
                    assert(views.take(i + 1).drop_last() =~= views.take(i as int));
                    assert(views.take(i + 1).last() == Some(part@));
                    let chunk = chunks@[i as int];
                    let a = row_px(layout@, at) - row_px(layout@, from);
                    let b = chunk_height(layout@, chunk);
                    let w = layout@.width;
                    assert(w * a * 4 + w * b * 4 == w * (a + b) * 4) by (nonlinear_arith);
                    at = chunk.end as int;
                    if i + 1 < parts@.len() {
                        assert(follows(chunks@, i + 1));
                    }
                }
            },
            None => {
                proof {
                    assert(views[i as int] is None);
                    lemma_joined_missing(views, i as int);
                }
                return None;
            },
        }
        i += 1;
    }
    proof {
        assert(views.take(i as int) =~= views);
    }
    Some(out)
}

// ---------------------------------------------------------------------------
// Phases
// ---------------------------------------------------------------------------

/// Whether decoding the whole frame at once can give `pixels`.
pub open spec fn may_decode_frame(
    bytes: Seq<u8>,
    layout: LayoutModel,
    threads: int,
    pixels: Option<Seq<u8>>,
) -> bool {
    exists|chunks: Seq<Span>| #[trigger]
        is_chunking(layout.rows, chunk_target(threads), chunks) && may_join(
            bytes,
            layout,
            chunks,
            pixels,
        )
}

/// Whether decoding the MCU rows `from..to` can give `pixels`, with at least
/// `minimum` chunks where there are as many rows.
pub open spec fn may_decode_rows(
    bytes: Seq<u8>,
    layout: LayoutModel,
    threads: int,
    from: int,
    to: int,
    minimum: int,
    pixels: Option<Seq<u8>>,
) -> bool {
    exists|chunks: Seq<Span>| #[trigger]
        is_region_chunking(layout.rows, from, to, chunk_target(threads), minimum, chunks)
            && may_join(bytes, layout, chunks, pixels)
}

/// The frame with the given pixels.
pub open spec fn frame_of(layout: LayoutModel, rgba: Seq<u8>) -> PixelModel {
    PixelModel {
        width: layout.width as nat,
        height: layout.height as nat,
        rgba,
        opaque: packed_opaque(layout.width as nat, layout.height as nat, rgba),
    }
}

/// Whether a buffer is a complete frame with the given pixels.
pub open spec fn is_frame(layout: LayoutModel, rgba: Seq<u8>, buf: PixelBuf) -> bool {
    &&& buf.wf()
    &&& buf@ == frame_of(layout, rgba)
    &&& packed(buf@.width, buf@.height, buf@.rgba)
}

/// Rows decoded ahead of the rest of the frame.
///
/// `rows` are the tightly packed RGBA pixels of image rows from `y0` on, at full
/// width: exactly what the finished frame will contain for those rows.
pub struct BandPixels {
    pub full_width: u32,
    pub full_height: u32,
    pub y0: u32,
    pub rows: Vec<u8>,
}

/// A decode whose band is done and whose other rows are not.
pub struct PendingDecode {
    pub layout: ScanLayout,
    /// Workers of the pool at the start of the decode.
    pub threads: usize,
    /// MCU rows of the band.
    pub band_rows: Span,
    pub band: BandPixels,
}

impl PendingDecode {
    /// Whether this is a decode of `bytes` with its band in place.
    pub open spec fn wf(self, bytes: Seq<u8>) -> bool {
        let layout = self.layout@;
        &&& layout_of(bytes) == Some(layout)
        &&& layout_fits(bytes, layout)
        &&& layout.width * layout.height * 4 <= usize::MAX
        &&& self.layout.mcu_row_px == 8
        &&& self.band_rows.start < self.band_rows.end <= layout.rows.len()
        &&& self.band.full_width == layout.width
        &&& self.band.full_height == layout.height
        &&& self.band.y0 == row_px(layout, self.band_rows.start as int)
        &&& self.band.rows@.len() == layout.width * chunk_height(layout, self.band_rows) * 4
    }
}

/// The first phase of a decode.
pub enum BandDecode {
    /// The whole frame decoded at once.
    Done(PixelBuf),
    /// The band decoded; the other rows are left.
    Band(PendingDecode),
    /// The stream is not provably splittable, or a chunk failed to decode.
    Unsupported,
}

/// Outcome of [`try_decode_prioritized`].
pub enum PrioritizedDecode {
    /// The whole frame decoded.
    Done(PixelBuf),
    /// The caller cancelled at the phase boundary. No output was produced and
    /// the input bytes were never judged corrupt, so the caller must not treat
    /// the source object as damaged.
    Cancelled,
    /// The stream is not provably splittable (or a chunk failed to decode); the
    /// caller must fall back to the ordinary serial decode.
    Unsupported,
}

/// The rows to decode first: those of the request, where there is one that is
/// neither empty nor the whole frame.
pub open spec fn first_rows(layout: LayoutModel, band: Option<BandRequest>) -> Option<Span> {
    match band {
        Some(band) => band_rows_of(layout, band),
        None => None,
    }
}

/// Whether a decode on a pool can split a stream at all.
pub open spec fn splittable(bytes: Seq<u8>, threads: int) -> Option<LayoutModel> {
    match layout_of(bytes) {
        Some(layout) => if threads >= 2 && layout.width * layout.height * 4 <= usize::MAX {
            Some(layout)
        } else {
            None
        },
        None => None,
    }
}

/// Whether the first phase can end in `outcome`.
pub open spec fn may_begin(
    bytes: Seq<u8>,
    band: Option<BandRequest>,
    threads: usize,
    outcome: BandDecode,
) -> bool {
    match splittable(bytes, threads as int) {
        None => outcome is Unsupported,
        Some(layout) => match first_rows(layout, band) {
            None => exists|pixels: Option<Seq<u8>>| #[trigger]
                may_decode_frame(bytes, layout, threads as int, pixels) && match pixels {
                    Some(rgba) => outcome matches BandDecode::Done(buf) && is_frame(
                        layout,
                        rgba,
                        buf,
                    ),
                    None => outcome is Unsupported,
                },
            Some(rows) => exists|pixels: Option<Seq<u8>>| #[trigger]
                may_decode_rows(
                    bytes,
                    layout,
                    threads as int,
                    rows.start as int,
                    rows.end as int,
                    threads as int,
                    pixels,
                ) && match pixels {
                    Some(rgba) => outcome matches BandDecode::Band(pending) && pending.wf(bytes)
                        && pending.threads == threads && pending.band_rows == rows
                        && pending.band.rows@ == rgba,
                    None => outcome is Unsupported,
                },
        },
    }
}

/// Whether the second phase can end in `outcome`.
pub open spec fn may_finish(
    bytes: Seq<u8>,
    pending: PendingDecode,
    cancelled: bool,
    outcome: PrioritizedDecode,
) -> bool {
    let layout = pending.layout@;
    let rows = pending.band_rows;
    if cancelled {
        outcome is Cancelled
    } else {
        exists|above: Option<Seq<u8>>, below: Option<Seq<u8>>|
            #[trigger] may_decode_rows(
                bytes,
                layout,
                pending.threads as int,
                0,
                rows.start as int,
                1,
                above,
            ) && #[trigger] may_decode_rows(
                bytes,
                layout,
                pending.threads as int,
                rows.end as int,
                layout.rows.len() as int,
                1,
                below,
            ) && match (above, below) {
                (Some(above), Some(below)) => outcome matches PrioritizedDecode::Done(buf)
                    && is_frame(layout, above + pending.band.rows@ + below, buf),
                _ => outcome is Unsupported,
            }
    }
}

fn make_frame(layout: &ScanLayout, rgba: Vec<u8>) -> (buf: PixelBuf)
    requires
        1 <= layout@.width <= 0xFFFF,
        1 <= layout@.height <= 0xFFFF,
        rgba@.len() == layout@.width * layout@.height * 4,
    ensures
        is_frame(layout@, rgba@, buf),
{
    PixelBuf::new_scanned(layout.width as u32, layout.height as u32, rgba)
}

proof fn lemma_layout_bytes(bytes: Seq<u8>, layout: LayoutModel)
    requires
        layout_fits(bytes, layout),
    ensures
        crate::jpeg_restart::chunks::rows_ordered(layout.rows),
        bytes_before(layout.rows, layout.rows.len() as int) <= bytes.len(),
{
    lemma_bytes_fit(bytes, layout.entropy_start, layout.rows, layout.rows.len() as int);
}

proof fn lemma_chunks_in_rows(layout: LayoutModel, chunks: Seq<Span>, from: int, to: int)
    requires
        tiles(chunks, from, to),
        to <= layout.rows.len(),
    ensures
        forall|i: int|
            0 <= i < chunks.len() ==> (#[trigger] chunks[i]).start < chunks[i].end
                <= layout.rows.len(),
{
    assert forall|i: int| 0 <= i < chunks.len() implies (#[trigger] chunks[i]).start
        < chunks[i].end <= layout.rows.len() by {
        lemma_tile_bounds(chunks, from, to, i);
    }
}

/// Decodes the whole frame in one phase.
fn decode_frame(bytes: &[u8], layout: &ScanLayout, threads: usize) -> (pixels: Option<Vec<u8>>)
    requires
        layout_fits(bytes@, layout@),
        layout.mcu_row_px == 8,
    ensures
        may_decode_frame(bytes@, layout@, threads as int, opt_view(pixels)),
        pixels matches Some(rgba) ==> rgba@.len() == layout@.width * layout@.height * 4,
{
    let len: usize = bytes.len();
    let ghost rows = layout@.rows;
    proof {
        lemma_layout_bytes(bytes@, layout@);
    }
    let chunks = chunk_rows(layout.rows.as_slice(), total_chunk_target(threads));
    proof {
        law_chunks_cover_every_row(rows, chunk_target(threads as int), chunks@);
        lemma_chunks_in_rows(layout@, chunks@, 0, rows.len() as int);
        lemma_row_px(bytes@, layout@, 0);
        lemma_row_px(bytes@, layout@, rows.len() as int);
    }
    let parts = decode_chunks(bytes, layout, &chunks);
    let pixels = join_parts(layout, &chunks, &parts, Ghost(0), Ghost(rows.len() as int));
    proof {
        assert(parts_of(bytes@, layout@, chunks@, part_views(parts@)));
        assert(may_join(bytes@, layout@, chunks@, opt_view(pixels)));
    }
    pixels
}

/// Decodes the MCU rows `from..to`.
fn decode_rows(
    bytes: &[u8],
    layout: &ScanLayout,
    threads: usize,
    from: usize,
    to: usize,
    minimum: usize,
) -> (pixels: Option<Vec<u8>>)
    requires
        layout_fits(bytes@, layout@),
        layout.mcu_row_px == 8,
        from <= to <= layout@.rows.len(),
    ensures
        may_decode_rows(
            bytes@,
            layout@,
            threads as int,
            from as int,
            to as int,
            minimum as int,
            opt_view(pixels),
        ),
        pixels matches Some(rgba) ==> rgba@.len() == layout@.width * (row_px(layout@, to as int)
            - row_px(layout@, from as int)) * 4,
{
    let len: usize = bytes.len();
    proof {
        lemma_layout_bytes(bytes@, layout@);
    }
    let chunks = chunk_region(
        layout.rows.as_slice(),
        from,
        to,
        total_chunk_target(threads),
        minimum,
    );
    proof {
        lemma_chunks_in_rows(layout@, chunks@, from as int, to as int);
    }
    let parts = decode_chunks(bytes, layout, &chunks);
    let pixels = join_parts(layout, &chunks, &parts, Ghost(from as int), Ghost(to as int));
    proof {
        assert(parts_of(bytes@, layout@, chunks@, part_views(parts@)));
        assert(may_join(bytes@, layout@, chunks@, opt_view(pixels)));
    }
    pixels
}

fn fits_memory(layout: &ScanLayout) -> (fits: bool)
    ensures
        fits == (layout@.width * layout@.height * 4 <= usize::MAX),
{
    let ghost w = layout.width as int;
    let ghost h = layout.height as int;
    match layout.width.checked_mul(4) {
        Some(row_bytes) => {
            assert((w * 4) * h == w * h * 4) by (nonlinear_arith);
            row_bytes.checked_mul(layout.height).is_some()
        },
        None => {
            if layout.height == 0 {
                assert(w * h * 4 == 0) by (nonlinear_arith)
                    requires
                        h == 0,
                ;
                true
            } else {
                assert(w * h * 4 >= w * 4) by (nonlinear_arith)
                    requires
                        h >= 1,
                        w >= 0,
                ;
                false
            }
        },
    }
}

/// Runs the first phase of a decode on a pool of `threads` workers: the rows of
/// the band where one was asked for, else the whole frame.
pub fn begin_decode(bytes: &[u8], band: Option<BandRequest>, threads: usize) -> (outcome:
    BandDecode)
    ensures
        may_begin(bytes@, band, threads, outcome),
{
    if threads < 2 {
        return BandDecode::Unsupported;
    }
    let layout = match parse_layout(bytes) {
        Some(layout) => layout,
        None => return BandDecode::Unsupported,
    };
    if !fits_memory(&layout) {
        return BandDecode::Unsupported;
    }
    let first: Option<Span> = match band {
        Some(band) => band_mcu_rows(&layout, band),
        None => None,
    };
    match first {
        None => {
            let pixels = decode_frame(bytes, &layout, threads);
            let ghost model = opt_view(pixels);
            match pixels {
                Some(rgba) => {
                    assert(may_decode_frame(bytes@, layout@, threads as int, model));
                    BandDecode::Done(make_frame(&layout, rgba))
                },
                None => {
                    assert(may_decode_frame(bytes@, layout@, threads as int, model));
                    BandDecode::Unsupported
                },
            }
        },
        Some(band_rows) => {
            let pixels = decode_rows(
                bytes,
                &layout,
                threads,
                band_rows.start,
                band_rows.end,
                threads,
            );
            let ghost model = opt_view(pixels);
            assert(may_decode_rows(
                bytes@,
                layout@,
                threads as int,
                band_rows.start as int,
                band_rows.end as int,
                threads as int,
                model,
            ));
            match pixels {
                Some(rows) => {
                    proof {
                        lemma_row_px(bytes@, layout@, band_rows.start as int);
                        lemma_row_px(bytes@, layout@, band_rows.end as int);
                    }
                    let band = BandPixels {
                        full_width: layout.width as u32,
                        full_height: layout.height as u32,
                        y0: (band_rows.start * layout.mcu_row_px) as u32,
                        rows,
                    };
                    BandDecode::Band(PendingDecode { layout, threads, band_rows, band })
                },
                None => BandDecode::Unsupported,
            }
        },
    }
}

/// Runs the second phase: every row outside the band, unless the decode was
/// cancelled.
#[verifier::spinoff_prover]
pub fn finish_decode(bytes: &[u8], pending: PendingDecode, cancelled: bool) -> (outcome:
    PrioritizedDecode)
    requires
        pending.wf(bytes@),
    ensures
        may_finish(bytes@, pending, cancelled, outcome),
        // The rows of the band are exactly those that the finished frame holds there.
        outcome matches PrioritizedDecode::Done(buf) ==> {
            let start = pending.layout@.width * pending.band.y0 * 4;
            buf@.rgba.subrange(start, start + pending.band.rows@.len()) == pending.band.rows@
        },
{
    if cancelled {
        return PrioritizedDecode::Cancelled;
    }
    let layout = &pending.layout;
    let rows: Span = pending.band_rows;
    let count: usize = layout.rows.len();
    let above = decode_rows(bytes, layout, pending.threads, 0, rows.start, 1);
    let below = decode_rows(bytes, layout, pending.threads, rows.end, count, 1);
    let ghost above_model = opt_view(above);
    let ghost below_model = opt_view(below);
    assert(may_decode_rows(
        bytes@,
        layout@,
        pending.threads as int,
        0,
        rows.start as int,
        1,
        above_model,
    ));
    assert(may_decode_rows(
        bytes@,
        layout@,
        pending.threads as int,
        rows.end as int,
        layout@.rows.len() as int,
        1,
        below_model,
    ));
    match (above, below) {
        (Some(above), Some(below)) => {
            let mut rgba = above;
            append_bytes(&mut rgba, pending.band.rows.as_slice());
            append_bytes(&mut rgba, below.as_slice());
            proof {
                lemma_row_px(bytes@, layout@, 0);
                lemma_row_px(bytes@, layout@, rows.start as int);
                lemma_row_px(bytes@, layout@, rows.end as int);
                lemma_row_px(bytes@, layout@, layout@.rows.len() as int);
                let w = layout@.width;
                let a = row_px(layout@, rows.start as int);
                let b = chunk_height(layout@, rows);
                let c = layout@.height - row_px(layout@, rows.end as int);
                assert(w * (a - 0) * 4 + w * b * 4 + w * c * 4 == w * (a + b + c) * 4)
                    by (nonlinear_arith);
                let start = w * a * 4;
                assert(rgba@.subrange(start, start + pending.band.rows@.len())
                    =~= pending.band.rows@);
            }
            PrioritizedDecode::Done(make_frame(layout, rgba))
        },
        _ => PrioritizedDecode::Unsupported,
    }
}

/// Whether a decode that shows the band with `on_band` and asks `cancelled` at
/// the phase boundary can end in `outcome`.
pub open spec fn may_end<C: Fn() -> bool, B: Fn(&BandPixels)>(
    bytes: Seq<u8>,
    begun: BandDecode,
    cancelled: C,
    on_band: B,
    outcome: PrioritizedDecode,
) -> bool {
    match begun {
        BandDecode::Done(buf) => outcome == PrioritizedDecode::Done(buf),
        BandDecode::Unsupported => outcome is Unsupported,
        BandDecode::Band(pending) => {
            &&& on_band.ensures((&pending.band,), ())
            &&& exists|stop: bool|
                cancelled.ensures((), stop) && #[trigger] may_finish(
                    bytes,
                    pending,
                    stop,
                    outcome,
                )
        },
    }
}

/// Parallel decode on the current pool with an optional visible-band-first
/// schedule.
///
/// Without a band the whole frame decodes at once. With one, the MCU rows
/// covering the band decode first, on every worker, the band is shown to
/// `on_band`, `cancelled` is consulted once at the phase boundary, and the
/// remaining rows decode second.
pub fn try_decode_prioritized<C: Fn() -> bool, B: Fn(&BandPixels)>(
    bytes: &[u8],
    band: Option<BandRequest>,
    cancelled: C,
    on_band: B,
) -> (outcome: PrioritizedDecode)
    requires
        cancelled.requires(()),
        forall|pixels: &BandPixels| on_band.requires((pixels,)),
    ensures
        exists|threads: usize, begun: BandDecode| #[trigger]
            may_begin(bytes@, band, threads, begun) && may_end(
                bytes@,
                begun,
                cancelled,
                on_band,
                outcome,
            ),
{
    let threads: usize = rayon::current_num_threads();
    let begun = begin_decode(bytes, band, threads);
    let ghost model = begun;
    assert(may_begin(bytes@, band, threads, model));
    match begun {
        BandDecode::Done(buf) => PrioritizedDecode::Done(buf),
        BandDecode::Unsupported => PrioritizedDecode::Unsupported,
        BandDecode::Band(pending) => {
            on_band(&pending.band);
            let stop: bool = cancelled();
            let outcome = finish_decode(bytes, pending, stop);
            assert(may_finish(bytes@, pending, stop, outcome));
            outcome
        },
    }
}

/// Attempts a parallel decode of a row-aligned restart-marker baseline JPEG.
///
/// Returns `None` whenever the stream is not provably splittable or any chunk
/// fails to decode; the caller then runs the ordinary serial decode.
pub fn try_decode(bytes: &[u8]) -> (buf: Option<PixelBuf>)
    ensures
        exists|threads: usize, begun: BandDecode| #[trigger]
            may_begin(bytes@, None, threads, begun) && match buf {
                Some(buf) => begun == BandDecode::Done(buf),
                None => begun is Unsupported,
            },
        buf matches Some(made) ==> made.wf() && packed(made@.width, made@.height, made@.rgba),
{
    let threads: usize = rayon::current_num_threads();
    let begun = begin_decode(bytes, None, threads);
    let ghost model = begun;
    assert(may_begin(bytes@, None, threads, model));
    match begun {
        BandDecode::Done(buf) => Some(buf),
        _ => None,
    }
}

/// A cancelled decode produces no output and never calls the stream damaged.
pub proof fn law_cancelled_decode_is_not_a_failure(
    bytes: Seq<u8>,
    pending: PendingDecode,
    outcome: PrioritizedDecode,
)
    requires
        may_finish(bytes, pending, true, outcome),
    ensures
        outcome is Cancelled,
{
}

/// A decode that was cancelled had shown its band and was asked to stop; one
/// without anything to decode first, or without a way to split the stream, never
/// shows a band and is never cancelled.
pub proof fn law_cancellation_follows_the_band<C: Fn() -> bool, B: Fn(&BandPixels)>(
    bytes: Seq<u8>,
    band: Option<BandRequest>,
    threads: usize,
    begun: BandDecode,
    cancelled: C,
    on_band: B,
    outcome: PrioritizedDecode,
)
    requires
        may_begin(bytes, band, threads, begun),
        may_end(bytes, begun, cancelled, on_band, outcome),
    ensures
        splittable(bytes, threads as int) is None ==> begun is Unsupported
            && outcome is Unsupported,
        band is None ==> begun !is Band,
        outcome is Cancelled ==> cancelled.ensures((), true) && (begun matches BandDecode::Band(
            pending,
        ) && on_band.ensures((&pending.band,), ())),
{
}

// ---------------------------------------------------------------------------
// Splitting does not change the picture
// ---------------------------------------------------------------------------

/// The pixels of the MCU rows `from..to` of a frame.
pub open spec fn pixel_rows(layout: LayoutModel, rgba: Seq<u8>, from: int, to: int) -> Seq<u8> {
    rgba.subrange(
        layout.width * row_px(layout, from) * 4,
        layout.width * row_px(layout, to) * 4,
    )
}

/// Whether every decode of a stream gives the same picture.
pub open spec fn decodes_to(jpeg: Seq<u8>, width: int, height: int, rgba: Seq<u8>) -> bool {
    forall|decoded: DecodeModel| #[trigger]
        may_decode(jpeg, decoded) ==> decoded == Ok::<
            (Seq<u8>, Option<(usize, usize)>),
            Seq<char>,
        >((rgba, Some((width as usize, height as usize))))
}

/// Whether the decoder treats the rows of a stream independently: the stream
/// decodes to a picture, and each run of its rows, as a stream of its own,
/// decodes to the same rows of that picture.
pub open spec fn decodes_rowwise(bytes: Seq<u8>, layout: LayoutModel, rgba: Seq<u8>) -> bool {
    &&& layout_fits(bytes, layout)
    &&& rgba.len() == layout.width * layout.height * 4
    &&& decodes_to(bytes, layout.width, layout.height, rgba)
    &&& forall|chunk: Span|
        chunk.start < chunk.end <= layout.rows.len() ==> decodes_to(
            #[trigger] mini_jpeg(bytes, layout, chunk),
            layout.width,
            chunk_height(layout, chunk),
            pixel_rows(layout, rgba, chunk.start as int, chunk.end as int),
        )
}

proof fn lemma_adjacent_rows(
    bytes: Seq<u8>,
    layout: LayoutModel,
    rgba: Seq<u8>,
    from: int,
    middle: int,
    to: int,
)
    requires
        layout_fits(bytes, layout),
        rgba.len() == layout.width * layout.height * 4,
        0 <= from <= middle <= to <= layout.rows.len(),
    ensures
        pixel_rows(layout, rgba, from, middle) + pixel_rows(layout, rgba, middle, to)
            == pixel_rows(layout, rgba, from, to),
{
    lemma_row_px(bytes, layout, from);
    lemma_row_px(bytes, layout, middle);
    lemma_row_px(bytes, layout, to);
    let w = layout.width;
    let a = row_px(layout, from);
    let b = row_px(layout, middle);
    let c = row_px(layout, to);
    assert(0 <= w * a * 4 <= w * b * 4 <= w * c * 4 <= w * layout.height * 4)
        by (nonlinear_arith)
        requires
            1 <= w,
            0 <= a <= b <= c <= layout.height,
    ;
    assert(pixel_rows(layout, rgba, from, middle) + pixel_rows(layout, rgba, middle, to)
        =~= pixel_rows(layout, rgba, from, to));
}

proof fn lemma_joined_rows(
    bytes: Seq<u8>,
    layout: LayoutModel,
    rgba: Seq<u8>,
    chunks: Seq<Span>,
    parts: Seq<Option<Seq<u8>>>,
    from: int,
    to: int,
    n: int,
)
    requires
        decodes_rowwise(bytes, layout, rgba),
        tiles(chunks, from, to),
        0 <= from <= to <= layout.rows.len(),
        parts_of(bytes, layout, chunks, parts),
        0 <= n <= chunks.len(),
    ensures
        joined(parts.take(n)) == Some(
            pixel_rows(
                layout,
                rgba,
                from,
                if n == 0 {
                    from
                } else {
                    chunks[n - 1].end as int
                },
            ),
        ),
    decreases n,
{
    if n == 0 {
        lemma_adjacent_rows(bytes, layout, rgba, from, from, from);
        let none = pixel_rows(layout, rgba, from, from);
        assert(none.len() + none.len() == none.len());
        assert(none =~= seq![]);
    } else {
        lemma_joined_rows(bytes, layout, rgba, chunks, parts, from, to, n - 1);
        let chunk = chunks[n - 1];
        lemma_tile_bounds(chunks, from, to, n - 1);
        if n > 1 {
            assert(follows(chunks, n - 1));
        }
        let jpeg = mini_jpeg(bytes, layout, chunk);
        let height = chunk_height(layout, chunk);
        lemma_row_px(bytes, layout, chunk.start as int);
        lemma_row_px(bytes, layout, chunk.end as int);
        assert(may_give(jpeg, layout.width, height, parts[n - 1]));
        let decoded = choose|decoded: DecodeModel| #[trigger]
            may_decode(jpeg, decoded) && parts[n - 1] == pixels_of(
                decoded,
                layout.width,
                height,
            );
        assert(may_decode(jpeg, decoded));
        assert(parts[n - 1] == Some(
            pixel_rows(layout, rgba, chunk.start as int, chunk.end as int),
        ));
        lemma_adjacent_rows(
            bytes,
            layout,
            rgba,
            from,
            chunk.start as int,
            chunk.end as int,
        );
        assert(parts.take(n).drop_last() =~= parts.take(n - 1));
        assert(parts.take(n).last() == parts[n - 1]);
    }
}

proof fn lemma_run_gives_rows(
    bytes: Seq<u8>,
    layout: LayoutModel,
    rgba: Seq<u8>,
    chunks: Seq<Span>,
    from: int,
    to: int,
    pixels: Option<Seq<u8>>,
)
    requires
        decodes_rowwise(bytes, layout, rgba),
        tiles(chunks, from, to),
        0 <= from <= to <= layout.rows.len(),
        may_join(bytes, layout, chunks, pixels),
    ensures
        pixels == Some(pixel_rows(layout, rgba, from, to)),
{
    let parts = choose|parts: Seq<Option<Seq<u8>>>| #[trigger]
        parts_of(bytes, layout, chunks, parts) && pixels == joined(parts);
    lemma_joined_rows(bytes, layout, rgba, chunks, parts, from, to, chunks.len() as int);
    assert(parts.take(chunks.len() as int) =~= parts);
}

proof fn lemma_all_rows(bytes: Seq<u8>, layout: LayoutModel, rgba: Seq<u8>)
    requires
        layout_fits(bytes, layout),
        rgba.len() == layout.width * layout.height * 4,
    ensures
        pixel_rows(layout, rgba, 0, layout.rows.len() as int) == rgba,
{
    lemma_row_px(bytes, layout, 0);
    lemma_row_px(bytes, layout, layout.rows.len() as int);
    assert(layout.width * 0 * 4 == 0);
    assert(pixel_rows(layout, rgba, 0, layout.rows.len() as int) =~= rgba);
}

/// Where the decoder treats rows independently, the first phase gives the rows of
/// the picture that the serial decode gives, whatever the number of workers, and
/// a stream that could be split is never given up.
pub proof fn law_first_phase_gives_rows_of_the_picture(
    bytes: Seq<u8>,
    layout: LayoutModel,
    rgba: Seq<u8>,
    band: Option<BandRequest>,
    threads: usize,
    begun: BandDecode,
)
    requires
        layout_of(bytes) == Some(layout),
        decodes_rowwise(bytes, layout, rgba),
        may_begin(bytes, band, threads, begun),
    ensures
        match begun {
            BandDecode::Done(buf) => buf@ == frame_of(layout, rgba),
            BandDecode::Band(pending) => pending.wf(bytes) && pending.band.rows@ == pixel_rows(
                layout,
                rgba,
                pending.band_rows.start as int,
                pending.band_rows.end as int,
            ),
            BandDecode::Unsupported => splittable(bytes, threads as int) is None,
        },
{
    let count = layout.rows.len() as int;
    lemma_all_rows(bytes, layout, rgba);
    if splittable(bytes, threads as int) is Some {
        match first_rows(layout, band) {
            None => {
                let pixels = choose|pixels: Option<Seq<u8>>| #[trigger]
                    may_decode_frame(bytes, layout, threads as int, pixels) && match pixels {
                        Some(rgba) => begun matches BandDecode::Done(buf) && is_frame(
                            layout,
                            rgba,
                            buf,
                        ),
                        None => begun is Unsupported,
                    };
                let target = chunk_target(threads as int);
                let chunks = choose|chunks: Seq<Span>| #[trigger]
                    is_chunking(layout.rows, target, chunks) && may_join(
                        bytes,
                        layout,
                        chunks,
                        pixels,
                    );
                law_chunks_cover_every_row(layout.rows, target, chunks);
                lemma_run_gives_rows(bytes, layout, rgba, chunks, 0, count, pixels);
            },
            Some(rows) => {
                let pixels = choose|pixels: Option<Seq<u8>>| #[trigger]
                    may_decode_rows(
                        bytes,
                        layout,
                        threads as int,
                        rows.start as int,
                        rows.end as int,
                        threads as int,
                        pixels,
                    ) && match pixels {
                        Some(rgba) => begun matches BandDecode::Band(pending) && pending.wf(bytes)
                            && pending.threads == threads && pending.band_rows == rows
                            && pending.band.rows@ == rgba,
                        None => begun is Unsupported,
                    };
                lemma_rows_give_rows(
                    bytes,
                    layout,
                    rgba,
                    threads as int,
                    rows.start as int,
                    rows.end as int,
                    threads as int,
                    pixels,
                );
            },
        }
    }
}

/// Where the decoder treats rows independently, a prioritized decode ends in the
/// picture that the serial decode gives, unless it was cancelled or the stream
/// could not be split.
pub proof fn law_prioritized_decode_equals_serial_decode<C: Fn() -> bool, B: Fn(&BandPixels)>(
    bytes: Seq<u8>,
    layout: LayoutModel,
    rgba: Seq<u8>,
    band: Option<BandRequest>,
    threads: usize,
    begun: BandDecode,
    cancelled: C,
    on_band: B,
    outcome: PrioritizedDecode,
)
    requires
        layout_of(bytes) == Some(layout),
        decodes_rowwise(bytes, layout, rgba),
        may_begin(bytes, band, threads, begun),
        may_end(bytes, begun, cancelled, on_band, outcome),
    ensures
        match outcome {
            PrioritizedDecode::Done(buf) => buf@ == frame_of(layout, rgba),
            PrioritizedDecode::Cancelled => cancelled.ensures((), true),
            PrioritizedDecode::Unsupported => splittable(bytes, threads as int) is None,
        },
{
    law_first_phase_gives_rows_of_the_picture(bytes, layout, rgba, band, threads, begun);
    if let BandDecode::Band(pending) = begun {
        let stop = choose|stop: bool|
            cancelled.ensures((), stop) && #[trigger] may_finish(bytes, pending, stop, outcome);
        if !stop {
            lemma_finish_gives_frame(bytes, layout, rgba, pending, outcome);
        }
    }
}

proof fn lemma_rows_give_rows(
    bytes: Seq<u8>,
    layout: LayoutModel,
    rgba: Seq<u8>,
    threads: int,
    from: int,
    to: int,
    minimum: int,
    pixels: Option<Seq<u8>>,
)
    requires
        decodes_rowwise(bytes, layout, rgba),
        0 <= from <= to <= layout.rows.len(),
        may_decode_rows(bytes, layout, threads, from, to, minimum, pixels),
    ensures
        pixels == Some(pixel_rows(layout, rgba, from, to)),
{
    let chunks = choose|chunks: Seq<Span>| #[trigger]
        is_region_chunking(layout.rows, from, to, chunk_target(threads), minimum, chunks)
            && may_join(bytes, layout, chunks, pixels);
    lemma_run_gives_rows(bytes, layout, rgba, chunks, from, to, pixels);
}

proof fn lemma_finish_gives_frame(
    bytes: Seq<u8>,
    layout: LayoutModel,
    rgba: Seq<u8>,
    pending: PendingDecode,
    outcome: PrioritizedDecode,
)
    requires
        layout_of(bytes) == Some(layout),
        decodes_rowwise(bytes, layout, rgba),
        pending.wf(bytes),
        pending.band.rows@ == pixel_rows(
            layout,
            rgba,
            pending.band_rows.start as int,
            pending.band_rows.end as int,
        ),
        may_finish(bytes, pending, false, outcome),
    ensures
        outcome matches PrioritizedDecode::Done(buf) && buf@ == frame_of(layout, rgba),
{
    let rows = pending.band_rows;
    let count = layout.rows.len() as int;
    let threads = pending.threads as int;
    let (above, below) = choose|above: Option<Seq<u8>>, below: Option<Seq<u8>>|
        #[trigger] may_decode_rows(bytes, layout, threads, 0, rows.start as int, 1, above)
            && #[trigger] may_decode_rows(
            bytes,
            layout,
            threads,
            rows.end as int,
            count,
            1,
            below,
        ) && match (above, below) {
            (Some(above), Some(below)) => outcome matches PrioritizedDecode::Done(buf) && is_frame(
                layout,
                above + pending.band.rows@ + below,
                buf,
            ),
            _ => outcome is Unsupported,
        };
    lemma_rows_give_rows(bytes, layout, rgba, threads, 0, rows.start as int, 1, above);
    lemma_rows_give_rows(bytes, layout, rgba, threads, rows.end as int, count, 1, below);
    lemma_adjacent_rows(bytes, layout, rgba, 0, rows.start as int, rows.end as int);
    lemma_adjacent_rows(bytes, layout, rgba, 0, rows.end as int, count);
    lemma_all_rows(bytes, layout, rgba);
}

// ---------------------------------------------------------------------------
// Damaged rows
// ---------------------------------------------------------------------------

/// Whether the decoder can make nothing of an MCU row: it gives no picture for any
/// run of rows around it.
pub open spec fn is_damaged(bytes: Seq<u8>, layout: LayoutModel, row: int) -> bool {
    &&& 0 <= row < layout.rows.len()
    &&& forall|chunk: Span, pixels: Option<Seq<u8>>|
        chunk.start <= row < chunk.end <= layout.rows.len() && #[trigger] may_give(
            mini_jpeg(bytes, layout, chunk),
            layout.width,
            chunk_height(layout, chunk),
            pixels,
        ) ==> pixels is None
}

proof fn lemma_row_is_in_a_chunk(chunks: Seq<Span>, from: int, to: int, row: int, n: int) -> (c:
    int)
    requires
        tiles(chunks, from, to),
        0 < n <= chunks.len(),
        from <= row < chunks[n - 1].end,
    ensures
        0 <= c < n,
        chunks[c].start <= row < chunks[c].end,
    decreases n,
{
    if row >= chunks[n - 1].start {
        n - 1
    } else if n == 1 {
        0
    } else {
        assert(follows(chunks, n - 1));
        lemma_row_is_in_a_chunk(chunks, from, to, row, n - 1)
    }
}

proof fn lemma_damaged_run_gives_nothing(
    bytes: Seq<u8>,
    layout: LayoutModel,
    chunks: Seq<Span>,
    from: int,
    to: int,
    row: int,
    pixels: Option<Seq<u8>>,
)
    requires
        is_damaged(bytes, layout, row),
        tiles(chunks, from, to),
        from <= row < to <= layout.rows.len(),
        may_join(bytes, layout, chunks, pixels),
    ensures
        pixels is None,
{
    let parts = choose|parts: Seq<Option<Seq<u8>>>| #[trigger]
        parts_of(bytes, layout, chunks, parts) && pixels == joined(parts);
    let c = lemma_row_is_in_a_chunk(chunks, from, to, row, chunks.len() as int);
    lemma_tile_bounds(chunks, from, to, c);
    assert(may_give(
        mini_jpeg(bytes, layout, chunks[c]),
        layout.width,
        chunk_height(layout, chunks[c]),
        parts[c],
    ));
    lemma_joined_missing(parts, c);
}

proof fn lemma_damaged_rows_give_nothing(
    bytes: Seq<u8>,
    layout: LayoutModel,
    threads: int,
    from: int,
    to: int,
    minimum: int,
    row: int,
    pixels: Option<Seq<u8>>,
)
    requires
        is_damaged(bytes, layout, row),
        from <= row < to <= layout.rows.len(),
        may_decode_rows(bytes, layout, threads, from, to, minimum, pixels),
    ensures
        pixels is None,
{
    let chunks = choose|chunks: Seq<Span>| #[trigger]
        is_region_chunking(layout.rows, from, to, chunk_target(threads), minimum, chunks)
            && may_join(bytes, layout, chunks, pixels);
    lemma_damaged_run_gives_nothing(bytes, layout, chunks, from, to, row, pixels);
}

/// A decode in chunks never makes a frame of a stream with a damaged row: whatever
/// the number of workers, it is left to the serial decode, or was cancelled after
/// its band.
pub proof fn law_damaged_stream_is_left_to_the_serial_decode<C: Fn() -> bool, B: Fn(&BandPixels)>(
    bytes: Seq<u8>,
    layout: LayoutModel,
    row: int,
    band: Option<BandRequest>,
    threads: usize,
    begun: BandDecode,
    cancelled: C,
    on_band: B,
    outcome: PrioritizedDecode,
)
    requires
        layout_of(bytes) == Some(layout),
        is_damaged(bytes, layout, row),
        may_begin(bytes, band, threads, begun),
        may_end(bytes, begun, cancelled, on_band, outcome),
    ensures
        begun !is Done,
        outcome !is Done,
        outcome is Cancelled ==> cancelled.ensures((), true),
{
    lemma_damaged_first_phase(bytes, layout, row, band, threads, begun);
    if let BandDecode::Band(pending) = begun {
        let rows = pending.band_rows;
        let count = layout.rows.len() as int;
        let n = pending.threads as int;
        let stop = choose|stop: bool|
            cancelled.ensures((), stop) && #[trigger] may_finish(bytes, pending, stop, outcome);
        if !stop {
            let (above, below) = choose|above: Option<Seq<u8>>, below: Option<Seq<u8>>|
                #[trigger] may_decode_rows(bytes, layout, n, 0, rows.start as int, 1, above)
                    && #[trigger] may_decode_rows(
                    bytes,
                    layout,
                    n,
                    rows.end as int,
                    count,
                    1,
                    below,
                ) && match (above, below) {
                    (Some(above), Some(below)) => outcome matches PrioritizedDecode::Done(buf)
                        && is_frame(layout, above + pending.band.rows@ + below, buf),
                    _ => outcome is Unsupported,
                };
            if row < rows.start {
                lemma_damaged_rows_give_nothing(
                    bytes,
                    layout,
                    n,
                    0,
                    rows.start as int,
                    1,
                    row,
                    above,
                );
            } else {
                lemma_damaged_rows_give_nothing(
                    bytes,
                    layout,
                    n,
                    rows.end as int,
                    count,
                    1,
                    row,
                    below,
                );
            }
        }
    }
}

/// The first phase gives no frame of a stream with a damaged row, and no band that
/// holds it.
pub(crate) proof fn lemma_damaged_first_phase(
    bytes: Seq<u8>,
    layout: LayoutModel,
    row: int,
    band: Option<BandRequest>,
    threads: usize,
    begun: BandDecode,
)
    requires
        layout_of(bytes) == Some(layout),
        is_damaged(bytes, layout, row),
        may_begin(bytes, band, threads, begun),
    ensures
        begun !is Done,
        begun matches BandDecode::Band(pending) ==> pending.wf(bytes) && !(pending.band_rows.start
            <= row < pending.band_rows.end),
        band is None ==> begun is Unsupported,
{
    if splittable(bytes, threads as int) is Some {
        match first_rows(layout, band) {
            None => {
                let pixels = choose|pixels: Option<Seq<u8>>| #[trigger]
                    may_decode_frame(bytes, layout, threads as int, pixels) && match pixels {
                        Some(rgba) => begun matches BandDecode::Done(buf) && is_frame(
                            layout,
                            rgba,
                            buf,
                        ),
                        None => begun is Unsupported,
                    };
                let target = chunk_target(threads as int);
                let chunks = choose|chunks: Seq<Span>| #[trigger]
                    is_chunking(layout.rows, target, chunks) && may_join(
                        bytes,
                        layout,
                        chunks,
                        pixels,
                    );
                let count = layout.rows.len() as int;
                law_chunks_cover_every_row(layout.rows, target, chunks);
                lemma_damaged_run_gives_nothing(bytes, layout, chunks, 0, count, row, pixels);
            },
            Some(rows) => {
                let pixels = choose|pixels: Option<Seq<u8>>| #[trigger]
                    may_decode_rows(
                        bytes,
                        layout,
                        threads as int,
                        rows.start as int,
                        rows.end as int,
                        threads as int,
                        pixels,
                    ) && match pixels {
                        Some(rgba) => begun matches BandDecode::Band(pending) && pending.wf(bytes)
                            && pending.threads == threads && pending.band_rows == rows
                            && pending.band.rows@ == rgba,
                        None => begun is Unsupported,
                    };
                if begun is Band && rows.start <= row < rows.end {
                    lemma_damaged_rows_give_nothing(
                        bytes,
                        layout,
                        threads as int,
                        rows.start as int,
                        rows.end as int,
                        threads as int,
                        row,
                        pixels,
                    );
                }
            },
        }
    }
}

} // verus!
