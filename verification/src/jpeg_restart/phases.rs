//! Which streams are split, and what is decoded first.
use vstd::prelude::*;

use crate::jpeg_restart::chunks::{band_mcu_rows, BandRequest};
use crate::jpeg_restart::decode::{
    begin_decode, decodes_rowwise, finish_decode, law_first_phase_gives_rows_of_the_picture,
    BandDecode, PendingDecode, PrioritizedDecode,
};
use crate::jpeg_restart::{parse_layout, ScanLayout, Span};

verus! {

/// A stream that has a layout is split on every pool of two workers or more. Without a
/// band the whole picture comes at once; with one, its rows come first, as the request
/// takes them in, at full width.
pub proof fn law_streams_with_a_layout_are_split(
    bytes: &[u8],
    layout: ScanLayout,
    rgba: Seq<u8>,
    band: Option<BandRequest>,
    rows: Option<Span>,
    threads: usize,
    begun: BandDecode,
)
    requires
        call_ensures(parse_layout, (bytes,), Some(layout)),
        decodes_rowwise(bytes@, layout@, rgba),
        threads >= 2,
        layout.width * layout.height * 4 <= usize::MAX,
        band matches Some(request) ==> call_ensures(band_mcu_rows, (&layout, request), rows),
        band is None ==> rows is None,
        call_ensures(begin_decode, (bytes, band, threads), begun),
    ensures
        rows is None ==> (begun matches BandDecode::Done(buf) && buf@.width == layout.width
            && buf@.height == layout.height && buf@.rgba == rgba),
        rows matches Some(span) ==> (begun matches BandDecode::Band(pending) && {
            let end = if 8 * span.end <= layout.height {
                8 * span.end
            } else {
                layout.height as int
            };
            &&& pending.band_rows == span && pending.threads == threads
            &&& pending.band.rows@ == rgba.subrange(
                layout.width * (8 * span.start) * 4,
                layout.width * end * 4,
            )
        }),
{
    law_first_phase_gives_rows_of_the_picture(bytes@, layout@, rgba, band, threads, begun);
}

/// A stream without a layout is not split, and none is on a pool of one worker.
pub proof fn law_other_streams_are_not_split(
    bytes: &[u8],
    layout: Option<ScanLayout>,
    band: Option<BandRequest>,
    threads: usize,
    begun: BandDecode,
)
    requires
        call_ensures(parse_layout, (bytes,), layout),
        layout is None || threads < 2,
        call_ensures(begin_decode, (bytes, band, threads), begun),
    ensures
        begun is Unsupported,
{
}

/// A decode that is cancelled between its phases ends there. One that goes on keeps the
/// rows of the band where they belong, or is given up.
pub proof fn law_second_phases_keep_the_band(
    bytes: &[u8],
    pending: PendingDecode,
    cancelled: bool,
    outcome: PrioritizedDecode,
)
    requires
        pending.wf(bytes@),
        call_ensures(finish_decode, (bytes, pending, cancelled), outcome),
    ensures
        outcome is Cancelled <==> cancelled,
        outcome matches PrioritizedDecode::Done(buf) ==> {
            let start = pending.layout.width * pending.band.y0 * 4;
            &&& buf@.width == pending.layout.width && buf@.height == pending.layout.height
            &&& buf@.rgba.len() == pending.layout.width * pending.layout.height * 4
            &&& buf@.rgba.subrange(start, start + pending.band.rows@.len()) == pending.band.rows@
        },
{
    if !cancelled {
        assert(!(outcome is Cancelled));
    }
}

} // verus!
