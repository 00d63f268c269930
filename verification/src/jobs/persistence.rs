//! The byte-bounded lane between completed pixels and JPEG persistence, and the
//! decisions around one persistence attempt.

use std::sync::Arc;

use vstd::prelude::*;

use crate::jobs::ids::{same_id, JobId};
use crate::types::PixelBuf;

verus! {

/// One worker owns at most one active buffer, plus at most this many pending
/// bytes. 256 MiB fits a typical 61 MP RGBA frame, so the lane is bounded to at
/// most two such retained frames; larger and excess requests are best-effort
/// cache misses.
pub const PERSIST_PENDING_BUDGET_BYTES: usize = 268_435_456;

/// Attempts at writing one disk cache object.
pub const PERSIST_WRITE_ATTEMPTS: usize = 3;

/// Completed pixels that wait for JPEG encoding.
pub struct PersistenceRequest {
    pub id: JobId,
    pub pixels: Arc<PixelBuf>,
    /// Warm-only work populates disk but deliberately skips the RAM JPEG ring.
    pub insert_ram: bool,
    /// At least one coalesced producer was a persistent folder-warm job. This
    /// bit follows active and pending coalescing through completion so failure
    /// reporting reflects the background obligation honestly.
    pub warm_completion: bool,
}

impl PersistenceRequest {
    /// Bytes that the request retains.
    pub open spec fn bytes(&self) -> nat {
        self.pixels@.rgba.len()
    }

    /// Returns the bytes that the request retains.
    pub fn retained_bytes(&self) -> (bytes: usize)
        ensures
            bytes == self.bytes(),
    {
        self.pixels.byte_len()
    }

    /// The request after another producer of the same image joined it.
    pub open spec fn merged(self, insert_ram: bool, warm_completion: bool) -> PersistenceRequest {
        PersistenceRequest {
            insert_ram: self.insert_ram || insert_ram,
            warm_completion: self.warm_completion || warm_completion,
            ..self
        }
    }
}

/// What became of an offered request.
#[derive(Debug, Clone, Copy, PartialEq, Eq, Structural)]
pub enum PersistenceEnqueue {
    /// The request was accepted.
    Queued,
    /// The same image is already active or pending; the requirements merged.
    Coalesced,
    /// Temporary byte-budget pressure; at least one pending request will free
    /// capacity and wake a deferred warm job.
    Saturated,
    /// This buffer can never fit the configured pending budget. Retrying would
    /// park it forever, so persistence remains explicitly best-effort.
    Oversized,
    /// Another producer owns the queue.
    Busy,
    /// The lane was shut down.
    Closed,
}

/// The request that the persistence worker is handling.
#[derive(Debug, Clone, Copy, PartialEq, Eq)]
pub struct ActivePersistence {
    pub id: JobId,
    pub insert_ram: bool,
    pub warm_completion: bool,
}

/// The requirements merged into a finished request.
#[derive(Debug, Clone, Copy, PartialEq, Eq, Structural)]
pub struct PersistenceCompletion {
    pub insert_ram: bool,
    pub warm_completion: bool,
}

/// Everything a [`PersistenceQueue`] holds.
#[verifier::ext_equal]
pub struct PersistenceModel {
    /// Accepted requests, oldest first.
    pub pending: Seq<PersistenceRequest>,
    /// The request that is being handled.
    pub active: Option<ActivePersistence>,
    /// Bytes that pending requests may retain together.
    pub budget: nat,
    pub closed: bool,
}

/// Bytes that a list of requests retains.
pub open spec fn total_bytes(pending: Seq<PersistenceRequest>) -> nat
    decreases pending.len(),
{
    if pending.len() == 0 {
        0
    } else {
        total_bytes(pending.drop_last()) + pending.last().bytes()
    }
}

/// Whether a list of requests holds one for an image.
pub open spec fn is_pending(pending: Seq<PersistenceRequest>, id: JobId) -> bool {
    exists|i: int| 0 <= i < pending.len() && (#[trigger] pending[i]).id == id
}

/// What holds of every lane: the pending bytes stay within the budget and no
/// image waits twice or waits while it is being handled.
pub open spec fn lane_consistent(m: PersistenceModel) -> bool {
    &&& total_bytes(m.pending) <= m.budget
    &&& forall|i: int, j: int|
        0 <= i < j < m.pending.len() ==> (#[trigger] m.pending[i]).id != (
        #[trigger] m.pending[j]).id
    &&& m.active matches Some(active) ==> !is_pending(m.pending, active.id)
}

/// The outcome of offering a request.
pub open spec fn offer_outcome(m: PersistenceModel, id: JobId, bytes: nat) -> PersistenceEnqueue {
    if m.closed {
        PersistenceEnqueue::Closed
    } else if (m.active matches Some(active) && active.id == id) || is_pending(m.pending, id) {
        PersistenceEnqueue::Coalesced
    } else if bytes > m.budget {
        PersistenceEnqueue::Oversized
    } else if total_bytes(m.pending) + bytes > m.budget {
        PersistenceEnqueue::Saturated
    } else {
        PersistenceEnqueue::Queued
    }
}

/// The active request after another producer joined it, if it is for the same
/// image.
pub open spec fn join_active(
    active: Option<ActivePersistence>,
    id: JobId,
    insert_ram: bool,
    warm_completion: bool,
) -> Option<ActivePersistence> {
    match active {
        Some(current) => if current.id == id {
            Some(
                ActivePersistence {
                    id,
                    insert_ram: current.insert_ram || insert_ram,
                    warm_completion: current.warm_completion || warm_completion,
                },
            )
        } else {
            active
        },
        None => None,
    }
}

/// The pending requests after another producer joined the one for its image.
pub open spec fn join_pending(
    pending: Seq<PersistenceRequest>,
    id: JobId,
    insert_ram: bool,
    warm_completion: bool,
) -> Seq<PersistenceRequest> {
    Seq::new(
        pending.len(),
        |i: int|
            if pending[i].id == id {
                pending[i].merged(insert_ram, warm_completion)
            } else {
                pending[i]
            },
    )
}

/// The lane after a request was offered.
pub open spec fn offered(m: PersistenceModel, request: PersistenceRequest) -> PersistenceModel {
    match offer_outcome(m, request.id, request.bytes()) {
        PersistenceEnqueue::Queued => PersistenceModel {
            pending: m.pending.push(request),
            ..m
        },
        PersistenceEnqueue::Coalesced => PersistenceModel {
            active: join_active(
                m.active,
                request.id,
                request.insert_ram,
                request.warm_completion,
            ),
            pending: join_pending(
                m.pending,
                request.id,
                request.insert_ram,
                request.warm_completion,
            ),
            ..m
        },
        _ => m,
    }
}

proof fn lemma_total_remove_first(pending: Seq<PersistenceRequest>)
    requires
        pending.len() > 0,
    ensures
        total_bytes(pending) == pending[0].bytes() + total_bytes(pending.remove(0)),
    decreases pending.len(),
{
    if pending.len() > 1 {
        lemma_total_remove_first(pending.drop_last());
        assert(pending.remove(0).drop_last() =~= pending.drop_last().remove(0));
        assert(pending.remove(0).last() == pending.last());
    } else {
        assert(pending.remove(0) =~= seq![]);
        assert(pending.drop_last() =~= seq![]);
    }
}

proof fn lemma_total_joined(
    pending: Seq<PersistenceRequest>,
    id: JobId,
    insert_ram: bool,
    warm_completion: bool,
)
    ensures
        total_bytes(join_pending(pending, id, insert_ram, warm_completion)) == total_bytes(pending),
    decreases pending.len(),
{
    let joined = join_pending(pending, id, insert_ram, warm_completion);
    if pending.len() > 0 {
        lemma_total_joined(pending.drop_last(), id, insert_ram, warm_completion);
        assert(joined.drop_last() =~= join_pending(
            pending.drop_last(),
            id,
            insert_ram,
            warm_completion,
        ));
    }
}

proof fn lemma_join_absent(
    pending: Seq<PersistenceRequest>,
    id: JobId,
    insert_ram: bool,
    warm_completion: bool,
)
    requires
        !is_pending(pending, id),
    ensures
        join_pending(pending, id, insert_ram, warm_completion) == pending,
{
    assert(join_pending(pending, id, insert_ram, warm_completion) =~= pending);
}

/// Offering a request keeps the lane within its budget, never queues an image
/// twice, and joins a duplicate to what is there.
pub proof fn law_offer_is_consistent(m: PersistenceModel, request: PersistenceRequest)
    requires
        lane_consistent(m),
    ensures
        lane_consistent(offered(m, request)),
{
    let after = offered(m, request);
    if offer_outcome(m, request.id, request.bytes()) == PersistenceEnqueue::Queued {
        assert(after.pending.drop_last() =~= m.pending);
        if after.active is Some && is_pending(after.pending, after.active->0.id) {
            let i = choose|i: int|
                0 <= i < after.pending.len() && (#[trigger] after.pending[i]).id
                    == after.active->0.id;
            assert(after.pending[i] == m.pending[i]);
        }
    } else if offer_outcome(m, request.id, request.bytes()) == PersistenceEnqueue::Coalesced {
        lemma_total_joined(
            m.pending,
            request.id,
            request.insert_ram,
            request.warm_completion,
        );
        if after.active is Some && is_pending(after.pending, after.active->0.id) {
            let i = choose|i: int|
                0 <= i < after.pending.len() && (#[trigger] after.pending[i]).id
                    == after.active->0.id;
            assert(m.pending[i].id == after.pending[i].id);
            assert(m.active->0.id == after.active->0.id);
        }
    }
}

/// A single-consumer, byte-bounded lane for JPEG encoding and persistence.
///
/// Requests for an active or pending ID coalesce. Warm work rejected by
/// temporary byte pressure is parked by the job queue, while oversized buffers
/// remain an explicit best-effort miss.
pub struct PersistenceQueue {
    pending: Vec<PersistenceRequest>,
    pending_bytes: usize,
    active: Option<ActivePersistence>,
    closed: bool,
    pending_budget_bytes: usize,
}

impl View for PersistenceQueue {
    type V = PersistenceModel;

    closed spec fn view(&self) -> PersistenceModel {
        PersistenceModel {
            pending: self.pending@,
            active: self.active,
            budget: self.pending_budget_bytes as nat,
            closed: self.closed,
        }
    }
}

impl PersistenceQueue {
    /// Whether the byte counter tells the truth.
    pub closed spec fn counted(&self) -> bool {
        self.pending_bytes == total_bytes(self.pending@)
    }

    /// Whether the lane is consistent.
    pub open spec fn wf(&self) -> bool {
        self.counted() && lane_consistent(self@)
    }

    /// Creates an open lane with the default byte budget.
    pub fn new() -> (lane: Self)
        ensures
            lane.wf(),
            lane@ == (PersistenceModel {
                pending: seq![],
                active: None,
                budget: PERSIST_PENDING_BUDGET_BYTES as nat,
                closed: false,
            }),
    {
        Self::with_budget(PERSIST_PENDING_BUDGET_BYTES)
    }

    /// Creates an open lane.
    pub fn with_budget(pending_budget_bytes: usize) -> (lane: Self)
        ensures
            lane.wf(),
            lane@ == (PersistenceModel {
                pending: seq![],
                active: None,
                budget: pending_budget_bytes as nat,
                closed: false,
            }),
    {
        let lane = PersistenceQueue {
            pending: Vec::new(),
            pending_bytes: 0,
            active: None,
            closed: false,
            pending_budget_bytes,
        };
        assert(lane@.pending =~= seq![]);
        lane
    }

    fn find_pending(&self, id: JobId) -> (position: Option<usize>)
        ensures
            match position {
                Some(i) => i < self@.pending.len() && self@.pending[i as int].id == id,
                None => !is_pending(self@.pending, id),
            },
    {
        let mut i: usize = 0;
        while i < self.pending.len()
            invariant
                i <= self.pending@.len(),
                forall|k: int| 0 <= k < i ==> (#[trigger] self.pending@[k]).id != id,
            decreases self.pending@.len() - i,
        {
            if same_id(self.pending[i].id, id) {
                return Some(i);
            }
            i += 1;
        }
        None
    }

    /// Joins the active or pending request of an image. Returns whether there
    /// is one.
    fn join(&mut self, id: JobId, insert_ram: bool, warm_completion: bool) -> (joined: bool)
        requires
            old(self).wf(),
        ensures
            final(self).wf(),
            joined == ((old(self)@.active matches Some(active) && active.id == id) || is_pending(
                old(self)@.pending,
                id,
            )),
            final(self)@ == (PersistenceModel {
                active: join_active(old(self)@.active, id, insert_ram, warm_completion),
                pending: join_pending(old(self)@.pending, id, insert_ram, warm_completion),
                ..old(self)@
            }),
    {
        let ghost before = self@;
        proof {
            lemma_total_joined(before.pending, id, insert_ram, warm_completion);
        }
        if let Some(active) = self.active {
            if same_id(active.id, id) {
                self.active = Some(
                    ActivePersistence {
                        id,
                        insert_ram: active.insert_ram || insert_ram,
                        warm_completion: active.warm_completion || warm_completion,
                    },
                );
                proof {
                    lemma_join_absent(before.pending, id, insert_ram, warm_completion);
                }
                return true;
            }
        }
        match self.find_pending(id) {
            Some(i) => {
                let request = self.pending.remove(i);
                self.pending.insert(
                    i,
                    PersistenceRequest {
                        id: request.id,
                        pixels: request.pixels,
                        insert_ram: request.insert_ram || insert_ram,
                        warm_completion: request.warm_completion || warm_completion,
                    },
                );
                assert(self.pending@ =~= join_pending(
                    before.pending,
                    id,
                    insert_ram,
                    warm_completion,
                ));
                proof {
                    assert(before.pending[i as int].id == id);
                    if let Some(active) = before.active {
                        if is_pending(self@.pending, active.id) {
                            let k = choose|k: int|
                                0 <= k < self@.pending.len() && (#[trigger] self@.pending[k]).id
                                    == active.id;
                            assert(before.pending[k].id == active.id);
                        }
                    }
                }
                true
            },
            None => {
                proof {
                    lemma_join_absent(before.pending, id, insert_ram, warm_completion);
                }
                false
            },
        }
    }

    /// Offers completed pixels to the lane.
    pub fn enqueue(&mut self, request: PersistenceRequest) -> (outcome: PersistenceEnqueue)
        requires
            old(self).wf(),
        ensures
            final(self).wf(),
            outcome == offer_outcome(old(self)@, request.id, request.bytes()),
            final(self)@ == offered(old(self)@, request),
    {
        let ghost before = self@;
        proof {
            law_offer_is_consistent(before, request);
        }
        if self.closed {
            return PersistenceEnqueue::Closed;
        }
        if self.join(request.id, request.insert_ram, request.warm_completion) {
            return PersistenceEnqueue::Coalesced;
        }
        proof {
            lemma_join_absent(
                before.pending,
                request.id,
                request.insert_ram,
                request.warm_completion,
            );
            assert(self@ =~= before);
        }
        let retained_bytes: usize = request.retained_bytes();
        if retained_bytes > self.pending_budget_bytes {
            return PersistenceEnqueue::Oversized;
        }
        if self.pending_bytes > self.pending_budget_bytes - retained_bytes {
            return PersistenceEnqueue::Saturated;
        }
        self.pending_bytes = self.pending_bytes + retained_bytes;
        self.pending.push(request);
        assert(self.pending@.drop_last() =~= before.pending);
        PersistenceEnqueue::Queued
    }

    /// Takes the oldest pending request and makes it the active one. Returns
    /// `None` when nothing is pending.
    pub fn pop(&mut self) -> (request: Option<PersistenceRequest>)
        requires
            old(self).wf(),
            old(self)@.active is None,
        ensures
            final(self).wf(),
            match request {
                Some(taken) => {
                    &&& old(self)@.pending.len() > 0
                    &&& taken == old(self)@.pending[0]
                    &&& final(self)@ == (PersistenceModel {
                        pending: old(self)@.pending.remove(0),
                        active: Some(
                            ActivePersistence {
                                id: taken.id,
                                insert_ram: taken.insert_ram,
                                warm_completion: taken.warm_completion,
                            },
                        ),
                        ..old(self)@
                    })
                },
                None => old(self)@.pending.len() == 0 && final(self)@ == old(self)@,
            },
    {
        let ghost before = self@;
        if self.pending.len() == 0 {
            return None;
        }
        proof {
            lemma_total_remove_first(before.pending);
        }
        let request = self.pending.remove(0);
        assert(request == before.pending[0]);
        self.pending_bytes = self.pending_bytes - request.retained_bytes();
        self.active = Some(
            ActivePersistence {
                id: request.id,
                insert_ram: request.insert_ram,
                warm_completion: request.warm_completion,
            },
        );
        proof {
            assert forall|i: int| 0 <= i < self@.pending.len() implies (
            #[trigger] self@.pending[i]).id != request.id by {
                assert(self@.pending[i] == before.pending[i + 1]);
            }
        }
        Some(request)
    }

    /// Mark an existing active/pending request as satisfying a folder-warm
    /// obligation. This is the zero-copy coalescing path used before a warm
    /// worker starts another RAW decode.
    pub fn mark_warm_completion_if_present(&mut self, id: JobId) -> (present: bool)
        requires
            old(self).wf(),
        ensures
            final(self).wf(),
            present == ((old(self)@.active matches Some(active) && active.id == id) || is_pending(
                old(self)@.pending,
                id,
            )),
            final(self)@ == (PersistenceModel {
                active: join_active(old(self)@.active, id, false, true),
                pending: join_pending(old(self)@.pending, id, false, true),
                ..old(self)@
            }),
    {
        self.join(id, false, true)
    }

    /// Bytes that another request may retain; none after shutdown.
    pub fn available_pending_bytes(&self) -> (bytes: usize)
        requires
            self.wf(),
        ensures
            bytes == if self@.closed {
                0
            } else {
                self@.budget - total_bytes(self@.pending)
            },
    {
        if self.closed {
            0
        } else {
            self.pending_budget_bytes - self.pending_bytes
        }
    }

    /// Finish the active request and return requirements merged from every
    /// duplicate that arrived while it was being persisted.
    pub fn finish(&mut self, id: JobId) -> (completion: PersistenceCompletion)
        requires
            old(self).wf(),
            old(self)@.active matches Some(active) && active.id == id,
        ensures
            final(self).wf(),
            final(self)@ == (PersistenceModel { active: None, ..old(self)@ }),
            completion == (PersistenceCompletion {
                insert_ram: old(self)@.active->0.insert_ram,
                warm_completion: old(self)@.active->0.warm_completion,
            }),
    {
        let (insert_ram, warm_completion): (bool, bool) = match self.active {
            Some(active) => (active.insert_ram, active.warm_completion),
            None => (false, false),
        };
        self.active = None;
        PersistenceCompletion { insert_ram, warm_completion }
    }

    /// Reject new work; accepted requests can still be drained.
    pub fn close(&mut self)
        requires
            old(self).wf(),
        ensures
            final(self).wf(),
            final(self)@ == (PersistenceModel { closed: true, ..old(self)@ }),
    {
        self.closed = true;
    }

    /// Returns whether the lane was shut down.
    pub fn is_closed(&self) -> (is_closed: bool)
        ensures
            is_closed == self@.closed,
    {
        self.closed
    }

    /// Returns whether a request is being handled.
    pub fn is_active(&self) -> (active: bool)
        ensures
            active == self@.active is Some,
    {
        self.active.is_some()
    }

    /// Number of pending requests.
    pub fn pending_len(&self) -> (len: usize)
        ensures
            len == self@.pending.len(),
    {
        self.pending.len()
    }

    /// Returns whether an image waits in the lane.
    pub fn is_pending(&self, id: JobId) -> (waiting: bool)
        ensures
            waiting == is_pending(self@.pending, id),
    {
        match self.find_pending(id) {
            Some(i) => {
                assert(self@.pending[i as int].id == id);
                true
            },
            None => false,
        }
    }

    /// The byte budget of the lane.
    pub fn budget(&self) -> (bytes: usize)
        ensures
            bytes == self@.budget,
    {
        self.pending_budget_bytes
    }
}

// ---------------------------------------------------------------------------
// Laws
// ---------------------------------------------------------------------------

/// A rejected request can be accepted later if and only if it is not larger
/// than the whole budget: once everything that waits was taken, it fits.
pub proof fn law_saturation_is_temporary(m: PersistenceModel, id: JobId, bytes: nat)
    requires
        lane_consistent(m),
        !m.closed,
        m.active is None,
        !is_pending(m.pending, id),
    ensures
        ({
            let drained = PersistenceModel { pending: seq![], ..m };
            offer_outcome(drained, id, bytes) == if bytes > m.budget {
                PersistenceEnqueue::Oversized
            } else {
                PersistenceEnqueue::Queued
            }
        }),
        offer_outcome(m, id, bytes) == PersistenceEnqueue::Oversized <==> bytes > m.budget,
{
    assert(total_bytes(Seq::<PersistenceRequest>::empty()) == 0);
}

/// A duplicate of a waiting or active image costs no bytes and loses none of
/// its requirements.
pub proof fn law_duplicates_coalesce(m: PersistenceModel, request: PersistenceRequest, i: int)
    requires
        lane_consistent(m),
        !m.closed,
        0 <= i < m.pending.len(),
        m.pending[i].id == request.id,
    ensures
        offer_outcome(m, request.id, request.bytes()) == PersistenceEnqueue::Coalesced,
        total_bytes(offered(m, request).pending) == total_bytes(m.pending),
        offered(m, request).pending.len() == m.pending.len(),
        offered(m, request).pending[i] == m.pending[i].merged(
            request.insert_ram,
            request.warm_completion,
        ),
{
    lemma_total_joined(m.pending, request.id, request.insert_ram, request.warm_completion);
}

/// Bytes of the pixels of the first `n` waiting requests.
pub open spec fn waiting_bytes(pending: Seq<PersistenceRequest>, n: int) -> int
    decreases n,
{
    if n <= 0 {
        0
    } else {
        waiting_bytes(pending, n - 1) + pending[n - 1].pixels@.rgba.len()
    }
}

proof fn lemma_waiting_bytes(pending: Seq<PersistenceRequest>)
    ensures
        waiting_bytes(pending, pending.len() as int) == total_bytes(pending),
    decreases pending.len(),
{
    if pending.len() > 0 {
        let rest = pending.drop_last();
        lemma_waiting_bytes(rest);
        lemma_waiting_prefix(pending, rest, rest.len() as int);
    }
}

proof fn lemma_waiting_prefix(a: Seq<PersistenceRequest>, b: Seq<PersistenceRequest>, n: int)
    requires
        n <= a.len(),
        n <= b.len(),
        forall|i: int| 0 <= i < n ==> a[i] == b[i],
    ensures
        waiting_bytes(a, n) == waiting_bytes(b, n),
    decreases n,
{
    if n > 0 {
        lemma_waiting_prefix(a, b, n - 1);
    }
}

/// Whether a lane handles or holds a request of an image.
pub open spec fn knows(lane: PersistenceModel, id: JobId) -> bool {
    ||| lane.active matches Some(active) && active.id == id
    ||| exists|i: int| 0 <= i < lane.pending.len() && (#[trigger] lane.pending[i]).id == id
}

/// Whether a lane differs from an earlier state only in that the requests of an image
/// took up what another producer of it asks for.
pub open spec fn takes_up(
    before: PersistenceModel,
    after: PersistenceModel,
    id: JobId,
    insert_ram: bool,
    warm_completion: bool,
) -> bool {
    &&& after.budget == before.budget && after.closed == before.closed
    &&& after.pending.len() == before.pending.len()
    &&& forall|i: int|
        0 <= i < before.pending.len() ==> {
            let was = #[trigger] before.pending[i];
            let is = after.pending[i];
            let joined = was.id == id;
            &&& is.id == was.id && is.pixels == was.pixels
            &&& is.insert_ram == (was.insert_ram || (joined && insert_ram))
            &&& is.warm_completion == (was.warm_completion || (joined && warm_completion))
        }
    &&& match (before.active, after.active) {
        (None, None) => true,
        (Some(was), Some(is)) => {
            let joined = was.id == id;
            &&& is.id == was.id
            &&& is.insert_ram == (was.insert_ram || (joined && insert_ram))
            &&& is.warm_completion == (was.warm_completion || (joined && warm_completion))
        },
        _ => false,
    }
}

/// What becomes of offered pixels. A closed lane takes nothing. Pixels of an image
/// that the lane knows join what is there. Others are oversized where they alone are
/// more than the budget, cannot be taken for now where they and what waits are, and
/// else wait behind everything else; nothing but this changes.
pub proof fn law_offered_pixels_join_or_wait(
    lane: &mut PersistenceQueue,
    request: PersistenceRequest,
    outcome: PersistenceEnqueue,
)
    requires
        old(lane).wf(),
        call_ensures(PersistenceQueue::enqueue, (lane, request), outcome),
    ensures
        ({
            let before = old(lane)@;
            let after = final(lane)@;
            let size = request.pixels@.rgba.len() as int;
            let waits = waiting_bytes(before.pending, before.pending.len() as int);
            let known = knows(before, request.id);
            &&& outcome == PersistenceEnqueue::Closed <==> before.closed
            &&& outcome == PersistenceEnqueue::Coalesced <==> !before.closed && known
            &&& outcome == PersistenceEnqueue::Oversized <==> !before.closed && !known && size
                > before.budget
            &&& outcome == PersistenceEnqueue::Saturated <==> !before.closed && !known && size
                <= before.budget && waits + size > before.budget
            &&& outcome == PersistenceEnqueue::Queued <==> !before.closed && !known && waits + size
                <= before.budget
            &&& outcome == PersistenceEnqueue::Queued ==> {
                &&& after.pending.len() == before.pending.len() + 1
                &&& after.pending.last() == request
                &&& forall|i: int|
                    0 <= i < before.pending.len() ==> #[trigger] after.pending[i]
                        == before.pending[i]
                &&& after.active == before.active && after.budget == before.budget && !after.closed
            }
            &&& outcome == PersistenceEnqueue::Coalesced ==> takes_up(
                before,
                after,
                request.id,
                request.insert_ram,
                request.warm_completion,
            )
            &&& outcome != PersistenceEnqueue::Queued && outcome != PersistenceEnqueue::Coalesced
                ==> after == before
        }),
{
    lemma_waiting_bytes(old(lane)@.pending);
}

/// The oldest waiting request is handled next, as it was offered and joined, and the
/// others move up.
pub proof fn law_the_oldest_request_is_taken(
    lane: &mut PersistenceQueue,
    taken: Option<PersistenceRequest>,
)
    requires
        old(lane).wf(),
        old(lane)@.active is None,
        call_ensures(PersistenceQueue::pop, (lane,), taken),
    ensures
        taken is None <==> old(lane)@.pending.len() == 0,
        taken is None ==> final(lane)@ == old(lane)@,
        taken matches Some(request) ==> {
            let before = old(lane)@;
            let after = final(lane)@;
            &&& request == before.pending[0]
            &&& after.pending.len() == before.pending.len() - 1
            &&& forall|i: int|
                0 <= i < after.pending.len() ==> #[trigger] after.pending[i] == before.pending[i
                    + 1]
            &&& after.active matches Some(active) && active.id == request.id && active.insert_ram
                == request.insert_ram && active.warm_completion == request.warm_completion
            &&& after.budget == before.budget && after.closed == before.closed
        },
{
}

/// A finished request hands on what was asked of it and leaves the lane free for the
/// next one; nothing that waits is touched.
pub proof fn law_finishing_hands_on_what_was_asked(
    lane: &mut PersistenceQueue,
    id: JobId,
    completion: PersistenceCompletion,
)
    requires
        old(lane).wf(),
        old(lane)@.active matches Some(active) && active.id == id,
        call_ensures(PersistenceQueue::finish, (lane, id), completion),
    ensures
        old(lane)@.active matches Some(active) && completion.insert_ram == active.insert_ram
            && completion.warm_completion == active.warm_completion,
        final(lane)@.active is None,
        final(lane)@.pending == old(lane)@.pending,
        final(lane)@.budget == old(lane)@.budget,
        final(lane)@.closed == old(lane)@.closed,
{
}

/// A warm obligation is taken up by exactly the requests of its image, whether or not
/// the lane is closed; closing changes nothing but that.
pub proof fn law_warm_obligations_are_taken_up(
    lane: &mut PersistenceQueue,
    id: JobId,
    present: bool,
    other: &mut PersistenceQueue,
)
    requires
        old(lane).wf(),
        call_ensures(PersistenceQueue::mark_warm_completion_if_present, (lane, id), present),
        old(other).wf(),
        call_ensures(PersistenceQueue::close, (other,), ()),
    ensures
        present == knows(old(lane)@, id),
        takes_up(old(lane)@, final(lane)@, id, false, true),
        final(other)@.closed,
        final(other)@.pending == old(other)@.pending,
        final(other)@.active == old(other)@.active,
        final(other)@.budget == old(other)@.budget,
{
}

/// A lane starts empty and open, with the budget that it is given or else 256 MiB, and
/// tells what it holds: while it is open, the bytes that wait and those that are
/// available make up the budget.
pub proof fn law_lanes_tell_what_they_hold(
    budget: usize,
    fresh: PersistenceQueue,
    given: PersistenceQueue,
    lane: &PersistenceQueue,
    id: JobId,
    bytes: usize,
    closed: bool,
    active: bool,
    len: usize,
    waiting: bool,
    limit: usize,
)
    requires
        call_ensures(PersistenceQueue::new, (), fresh),
        call_ensures(PersistenceQueue::with_budget, (budget,), given),
        lane.wf(),
        call_ensures(PersistenceQueue::available_pending_bytes, (lane,), bytes),
        call_ensures(PersistenceQueue::is_closed, (lane,), closed),
        call_ensures(PersistenceQueue::is_active, (lane,), active),
        call_ensures(PersistenceQueue::pending_len, (lane,), len),
        call_ensures(PersistenceQueue::is_pending, (lane, id), waiting),
        call_ensures(PersistenceQueue::budget, (lane,), limit),
    ensures
        fresh@.budget == 256 * 1024 * 1024,
        given@.budget == budget,
        fresh@.pending.len() == 0 && fresh@.active is None && !fresh@.closed,
        given@.pending.len() == 0 && given@.active is None && !given@.closed,
        closed ==> bytes == 0,
        !closed ==> bytes + waiting_bytes(lane@.pending, lane@.pending.len() as int)
            == lane@.budget,
        closed == lane@.closed,
        active <==> lane@.active is Some,
        len == lane@.pending.len(),
        waiting <==> exists|i: int|
            0 <= i < lane@.pending.len() && (#[trigger] lane@.pending[i]).id == id,
        limit == lane@.budget,
{
    lemma_waiting_bytes(lane@.pending);
}

} // verus!
