//! Scheduling of buffer uploads to the GPU. Uploads wait in a queue and are written, in
//! order, into transfers of bounded size; a bounded number of transfers is in flight at a
//! time, and every upload is answered exactly once: completed, failed or dropped.
//!
//! The GPU work (creating, filling, submitting and querying transfers) is the caller's: it
//! asks what to do next, does it, and hands the outcome back.

use vstd::multiset::Multiset;
use vstd::prelude::*;

verus! {

broadcast use {
    vstd::seq_lib::group_to_multiset_ensures,
    vstd::multiset::group_multiset_axioms,
    vstd::multiset::group_multiset_properties,
};

/// How many bytes one transfer may carry, how many transfers may be in flight at a time,
/// and how many may start in one frame.
#[derive(Clone, Copy, Debug)]
pub struct BufferUploaderConfig {
    pub max_bytes_per_transfer: usize,
    pub max_concurrent_transfers: usize,
    pub max_new_transfers_in_single_frame: usize,
}

/// The name of one buffer upload.
#[derive(Clone, Copy, Debug, PartialEq, Eq, Structural, Hash)]
pub struct BufferUploadId {
    pub id: u64,
}

/// The answer to one buffer upload.
#[derive(Clone, Copy, Debug, PartialEq, Eq, Structural)]
pub enum BufferUploadResult {
    /// The transfer that carried the upload failed.
    UploadError(BufferUploadId),
    /// The buffer is on the GPU.
    UploadComplete(BufferUploadId),
    /// The upload was given up before its transfer ran.
    UploadDrop(BufferUploadId),
}

/// The upload a result answers.
pub open spec fn result_id(r: BufferUploadResult) -> u64 {
    match r {
        BufferUploadResult::UploadError(i) => i.id,
        BufferUploadResult::UploadComplete(i) => i.id,
        BufferUploadResult::UploadDrop(i) => i.id,
    }
}

/// The uploads a sequence of results answers, in order.
pub open spec fn result_ids(rs: Seq<BufferUploadResult>) -> Seq<u64> {
    rs.map_values(|r: BufferUploadResult| result_id(r))
}

/// `ids` answered as dropped, in order.
pub open spec fn dropped(ids: Seq<u64>) -> Seq<BufferUploadResult> {
    ids.map_values(|i: u64| BufferUploadResult::UploadDrop(BufferUploadId { id: i }))
}

/// `ids` answered as completed (`ok`) or failed, in order.
pub open spec fn finished(ids: Seq<u64>, ok: bool) -> Seq<BufferUploadResult> {
    ids.map_values(
        |i: u64|
            if ok {
                BufferUploadResult::UploadComplete(BufferUploadId { id: i })
            } else {
                BufferUploadResult::UploadError(BufferUploadId { id: i })
            },
    )
}

/// What writing an upload into a transfer did.
#[derive(Clone, Copy, Debug, PartialEq, Eq, Structural)]
pub enum EnqueueOutcome {
    /// The upload is in the transfer.
    Enqueued,
    /// The transfer has no room left for it.
    BufferFull,
    /// Writing failed otherwise.
    Failed,
}

/// Where a transfer stands, as the GPU side reports it.
#[derive(Clone, Copy, Debug, PartialEq, Eq, Structural)]
pub enum TransferUploadState {
    Writable,
    SentToTransferQueue,
    PendingSubmitDstQueue,
    SentToDstQueue,
    Complete,
}

/// What polling a transfer found.
#[derive(Clone, Copy, Debug, PartialEq, Eq, Structural)]
pub enum InProgressTransferPollResult {
    /// Still on its way.
    Pending,
    /// Done: its uploads completed.
    Complete,
    /// Failed: its uploads failed.
    Error,
    /// It had already finished before.
    Destroyed,
}

/// What the caller does after one poll of a transfer.
#[derive(Clone, Copy, Debug, PartialEq, Eq, Structural)]
pub enum PollStep {
    /// Submit the transfer to the transfer queue, then poll again.
    SubmitTransfer,
    /// Submit it to the destination queue, then poll again.
    SubmitDst,
    /// Polling is over, with this result.
    Done(InProgressTransferPollResult),
}

/// The step one poll takes on a transfer whose uploads are `uploads` (`None` once it
/// finished), given the state reported for it (`None` when the query failed).
pub open spec fn poll_step(uploads: Option<Seq<u64>>, state: Option<TransferUploadState>) -> PollStep {
    match uploads {
        None => PollStep::Done(InProgressTransferPollResult::Destroyed),
        Some(_) => match state {
            None => PollStep::Done(InProgressTransferPollResult::Error),
            Some(TransferUploadState::Writable) => PollStep::SubmitTransfer,
            Some(TransferUploadState::PendingSubmitDstQueue) => PollStep::SubmitDst,
            Some(TransferUploadState::SentToTransferQueue) => PollStep::Done(InProgressTransferPollResult::Pending),
            Some(TransferUploadState::SentToDstQueue) => PollStep::Done(InProgressTransferPollResult::Pending),
            Some(TransferUploadState::Complete) => PollStep::Done(InProgressTransferPollResult::Complete),
        },
    }
}

/// Whether a step ends a transfer.
pub open spec fn ends_transfer(step: PollStep) -> bool {
    step == PollStep::Done(InProgressTransferPollResult::Complete) || step == PollStep::Done(
        InProgressTransferPollResult::Error,
    )
}

/// Answers `ids` as dropped, after `out`.
fn push_dropped(out: &mut Vec<BufferUploadResult>, ids: &Vec<u64>)
    ensures
        final(out)@ == old(out)@ + dropped(ids@),
{
    let ghost start = out@;
    let mut k: usize = 0;
    while k < ids.len()
        invariant
            k <= ids@.len(),
            out@ == start + dropped(ids@.take(k as int)),
        decreases ids@.len() - k,
    {
        out.push(BufferUploadResult::UploadDrop(BufferUploadId { id: ids[k] }));
        proof {
            assert(dropped(ids@.take(k + 1)) =~= dropped(ids@.take(k as int)).push(
                BufferUploadResult::UploadDrop(BufferUploadId { id: ids@[k as int] }),
            ));
        }
        k += 1;
    }
    proof {
        assert(ids@.take(ids@.len() as int) =~= ids@);
    }
}

/// `o` as a multiset.
pub open spec fn opt_ms(o: Option<u64>) -> Multiset<u64> {
    match o {
        Some(x) => Multiset::singleton(x),
        None => Multiset::empty(),
    }
}

/// All uploads carried by a sequence of transfers.
pub open spec fn carried(ts: Seq<Seq<u64>>) -> Multiset<u64>
    decreases ts.len(),
{
    if ts.len() == 0 {
        Multiset::empty()
    } else {
        carried(ts.drop_last()).add(ts.last().to_multiset())
    }
}

proof fn lemma_carried_push(ts: Seq<Seq<u64>>, x: Seq<u64>)
    ensures
        carried(ts.push(x)) == carried(ts).add(x.to_multiset()),
{
    assert(ts.push(x).drop_last() =~= ts);
}

proof fn lemma_carried_update(ts: Seq<Seq<u64>>, i: int, x: Seq<u64>)
    requires
        0 <= i < ts.len(),
    ensures
        carried(ts.update(i, x)).add(ts[i].to_multiset()) =~= carried(ts).add(x.to_multiset()),
    decreases ts.len(),
{
    let u = ts.update(i, x);
    assert(carried(u) == carried(u.drop_last()).add(u.last().to_multiset()));
    assert(carried(ts) == carried(ts.drop_last()).add(ts.last().to_multiset()));
    if i == ts.len() - 1 {
        assert(u.drop_last() =~= ts.drop_last());
        assert(u.last() == x);
    } else {
        let dl = ts.drop_last();
        assert(u.drop_last() =~= dl.update(i, x));
        assert(u.last() == ts.last());
        assert(dl[i] == ts[i]);
        lemma_carried_update(dl, i, x);
        assert forall|v: u64| #[trigger] carried(u).add(ts[i].to_multiset()).count(v) == carried(ts).add(
            x.to_multiset(),
        ).count(v) by {
            assert(carried(dl.update(i, x)).add(dl[i].to_multiset()).count(v) == carried(dl).add(
                x.to_multiset(),
            ).count(v));
        }
    }
}

proof fn lemma_carried_swap_remove(ts: Seq<Seq<u64>>, i: int)
    requires
        0 <= i < ts.len(),
    ensures
        carried(ts.update(i, ts.last()).drop_last()).add(ts[i].to_multiset()) =~= carried(ts),
{
    let u = ts.update(i, ts.last());
    lemma_carried_update(ts, i, ts.last());
    assert(u.last() == ts.last());
    assert(carried(u) == carried(u.drop_last()).add(u.last().to_multiset()));
    assert forall|v: u64| #[trigger] carried(u.drop_last()).add(ts[i].to_multiset()).count(v) == carried(ts).count(v) by {
        assert(carried(u).add(ts[i].to_multiset()).count(v) == carried(ts).add(ts.last().to_multiset()).count(v));
    }
}

proof fn lemma_ids_concat(a: Seq<BufferUploadResult>, b: Seq<BufferUploadResult>)
    ensures
        result_ids(a + b).to_multiset() =~= result_ids(a).to_multiset().add(result_ids(b).to_multiset()),
{
    assert(result_ids(a + b) =~= result_ids(a) + result_ids(b));
    vstd::seq_lib::lemma_multiset_commutative(result_ids(a), result_ids(b));
}

proof fn lemma_ids_dropped(ids: Seq<u64>)
    ensures
        result_ids(dropped(ids)) =~= ids,
{
}

proof fn lemma_ids_finished(ids: Seq<u64>, ok: bool)
    ensures
        result_ids(finished(ids, ok)) =~= ids,
{
}

/// What an upload queue holds, seen as values.
pub struct QueueView {
    pub config: BufferUploaderConfig,
    /// Uploads waiting to be written into a transfer, oldest first.
    pub pending: Seq<u64>,
    /// The upload an earlier transfer had no room for; it goes first into the next one.
    pub next_upload: Option<u64>,
    /// The upload being written into the transfer being packed.
    pub trying: Option<u64>,
    /// The uploads written into the transfer being packed, in order.
    pub packed: Seq<u64>,
    /// Whether packing stopped because the transfer is full.
    pub packing_stopped: bool,
    /// The uploads of each transfer in flight.
    pub transfers: Seq<Seq<u64>>,
    /// Answers not yet handed on, in order.
    pub results: Seq<BufferUploadResult>,
}

impl QueueView {
    /// An upload is being written only while none is carried over.
    pub open spec fn wf(self) -> bool {
        self.trying is Some ==> self.next_upload is None
    }

    /// Every upload the queue holds, wherever it is.
    pub open spec fn held(self) -> Multiset<u64> {
        self.pending.to_multiset().add(opt_ms(self.next_upload)).add(opt_ms(self.trying)).add(
            self.packed.to_multiset(),
        ).add(carried(self.transfers))
    }

    /// Every upload answered and not yet handed on.
    pub open spec fn answered(self) -> Multiset<u64> {
        result_ids(self.results).to_multiset()
    }

    /// `held` and `answered` together.
    pub open spec fn accounted(self) -> Multiset<u64> {
        self.held().add(self.answered())
    }
}

/// A new waiting upload adds itself to what the queue accounts for.
pub proof fn lemma_push_pending_accounted(v: QueueView, id: u64)
    ensures
        (QueueView { pending: v.pending.push(id), ..v }).accounted() =~= v.accounted().insert(id),
{
}

/// Whether another transfer may start, `started` having started this frame: one may start
/// while something waits to be written and fewer transfers than allowed are in flight.
pub open spec fn may_start(v: QueueView, started: int) -> bool {
    &&& started < v.config.max_new_transfers_in_single_frame
    &&& (v.pending.len() > 0 || v.next_upload is Some)
    &&& v.transfers.len() < v.config.max_concurrent_transfers
}

/// The upload to write next into the transfer being packed, and the queue after taking it:
/// the one being written until its outcome is reported; nothing once the transfer is
/// full; else the carried-over upload, then the waiting ones in order.
pub open spec fn enqueue_next(v: QueueView) -> (QueueView, Option<u64>) {
    if v.trying is Some {
        (v, v.trying)
    } else if v.packing_stopped {
        (v, None)
    } else if v.next_upload is Some {
        (QueueView { next_upload: None, trying: v.next_upload, ..v }, v.next_upload)
    } else if v.pending.len() > 0 {
        (QueueView { pending: v.pending.drop_first(), trying: Some(v.pending[0]), ..v }, Some(v.pending[0]))
    } else {
        (v, None)
    }
}

/// The queue after writing the upload being written had `outcome`: written, it joins the
/// transfer; with no room, it is carried over and packing stops; on a failure it and
/// every upload written so far are dropped, in that order, and the transfer is given up.
pub open spec fn after_outcome(v: QueueView, outcome: EnqueueOutcome) -> QueueView {
    match v.trying {
        None => v,
        Some(id) => match outcome {
            EnqueueOutcome::Enqueued => QueueView { trying: None, packed: v.packed.push(id), ..v },
            EnqueueOutcome::BufferFull => QueueView {
                trying: None,
                next_upload: Some(id),
                packing_stopped: true,
                ..v
            },
            EnqueueOutcome::Failed => QueueView {
                trying: None,
                packed: Seq::empty(),
                packing_stopped: false,
                results: v.results.push(BufferUploadResult::UploadDrop(BufferUploadId { id })) + dropped(
                    v.packed,
                ),
                ..v
            },
        },
    }
}

/// The queue after packing ends, the transfer having been `submitted` or not, and whether
/// a transfer started. An upload whose outcome was not reported was not written: it is
/// carried over. A transfer with uploads starts if submitted; if not, its uploads are
/// dropped in order. Packing starts afresh.
pub open spec fn after_finish(v: QueueView, submitted: bool) -> (QueueView, bool) {
    let w = match v.trying {
        Some(id) => QueueView { trying: None, next_upload: Some(id), ..v },
        None => v,
    };
    if w.packed.len() == 0 {
        (QueueView { packing_stopped: false, ..w }, false)
    } else if submitted {
        (
            QueueView {
                packed: Seq::empty(),
                packing_stopped: false,
                transfers: w.transfers.push(w.packed),
                ..w
            },
            true,
        )
    } else {
        (QueueView { packed: Seq::empty(), packing_stopped: false, results: w.results + dropped(w.packed), ..w }, false)
    }
}

/// The queue after one poll of transfer `i` with the reported `state`, and the step taken:
/// a transfer that completes or fails leaves (the last one takes its place), and its
/// uploads are answered in order.
pub open spec fn after_poll(v: QueueView, i: int, state: Option<TransferUploadState>) -> (QueueView, PollStep) {
    let step = poll_step(Some(v.transfers[i]), state);
    if ends_transfer(step) {
        (
            QueueView {
                transfers: v.transfers.update(i, v.transfers.last()).drop_last(),
                results: v.results + finished(
                    v.transfers[i],
                    step == PollStep::Done(InProgressTransferPollResult::Complete),
                ),
                ..v
            },
            step,
        )
    } else {
        (v, step)
    }
}

/// Taking the next upload to write moves it and nothing else.
pub proof fn lemma_enqueue_next_keeps(v: QueueView)
    requires
        v.wf(),
    ensures
        enqueue_next(v).0.wf(),
        enqueue_next(v).0.held() =~= v.held(),
        enqueue_next(v).0.answered() =~= v.answered(),
{
    if v.trying is None && !v.packing_stopped && v.next_upload is None && v.pending.len() > 0 {
        assert(v.pending =~= v.pending.drop_first().insert(0, v.pending[0]));
        assert(v.pending.drop_first() =~= v.pending.remove(0));
    }
}

/// An outcome moves the upload being written, and on a failure answers it and the
/// written ones: nothing is lost or duplicated.
pub proof fn lemma_after_outcome_keeps(v: QueueView, outcome: EnqueueOutcome)
    requires
        v.wf(),
    ensures
        after_outcome(v, outcome).wf(),
        after_outcome(v, outcome).accounted() =~= v.accounted(),
{
    if let Some(id) = v.trying {
        let w = after_outcome(v, outcome);
        if outcome == EnqueueOutcome::Failed {
            let d = v.results.push(BufferUploadResult::UploadDrop(BufferUploadId { id }));
            lemma_ids_concat(d, dropped(v.packed));
            lemma_ids_dropped(v.packed);
            assert(result_ids(d) =~= result_ids(v.results).push(id));
            assert(Seq::<u64>::empty().to_multiset() =~= Multiset::empty());
        }
    }
}

/// Ending packing moves uploads into a transfer or answers them: nothing is lost or
/// duplicated.
pub proof fn lemma_after_finish_keeps(v: QueueView, submitted: bool)
    requires
        v.wf(),
    ensures
        after_finish(v, submitted).0.wf(),
        after_finish(v, submitted).0.accounted() =~= v.accounted(),
{
    let w = match v.trying {
        Some(id) => QueueView { trying: None, next_upload: Some(id), ..v },
        None => v,
    };
    assert(w.accounted() =~= v.accounted());
    assert(Seq::<u64>::empty().to_multiset() =~= Multiset::empty());
    if w.packed.len() > 0 {
        if submitted {
            lemma_carried_push(w.transfers, w.packed);
        } else {
            lemma_ids_concat(w.results, dropped(w.packed));
            lemma_ids_dropped(w.packed);
        }
    }
}

/// A poll that ends a transfer answers exactly its uploads: nothing is lost or duplicated.
pub proof fn lemma_after_poll_keeps(v: QueueView, i: int, state: Option<TransferUploadState>)
    requires
        v.wf(),
        0 <= i < v.transfers.len(),
    ensures
        after_poll(v, i, state).0.wf(),
        after_poll(v, i, state).0.accounted() =~= v.accounted(),
{
    let step = poll_step(Some(v.transfers[i]), state);
    if ends_transfer(step) {
        let ok = step == PollStep::Done(InProgressTransferPollResult::Complete);
        lemma_carried_swap_remove(v.transfers, i);
        lemma_ids_concat(v.results, finished(v.transfers[i], ok));
        lemma_ids_finished(v.transfers[i], ok);
    }
}

/// A transfer on its way to the GPU, with the uploads it carries.
pub struct InProgressTransfer {
    inner: Option<Vec<u64>>,
}

impl InProgressTransfer {
    /// The uploads it carries, in the order they were written; `None` once it finished.
    pub closed spec fn uploads(&self) -> Option<Seq<u64>> {
        match self.inner {
            Some(v) => Some(v@),
            None => None,
        }
    }

    /// A transfer carrying `in_flight_uploads`.
    pub fn new(in_flight_uploads: Vec<u64>) -> (t: InProgressTransfer)
        ensures
            t.uploads() == Some(in_flight_uploads@),
    {
        InProgressTransfer { inner: Some(in_flight_uploads) }
    }

    /// One poll, given the state reported for the transfer (`None` when the query failed).
    /// When the transfer completes or fails, each of its uploads is answered so, in order,
    /// and the transfer is finished; otherwise nothing changes.
    pub fn poll(&mut self, state: Option<TransferUploadState>) -> (r: (PollStep, Vec<BufferUploadResult>))
        ensures
            r.0 == poll_step(old(self).uploads(), state),
            ends_transfer(r.0) ==> final(self).uploads() is None && r.1@ == finished(
                old(self).uploads().unwrap(),
                r.0 == PollStep::Done(InProgressTransferPollResult::Complete),
            ),
            !ends_transfer(r.0) ==> final(self).uploads() == old(self).uploads() && r.1@.len() == 0,
    {
        let mut inner: Option<Vec<u64>> = None;
        std::mem::swap(&mut inner, &mut self.inner);
        match inner {
            None => (PollStep::Done(InProgressTransferPollResult::Destroyed), Vec::new()),
            Some(uploads) => {
                let ok = match state {
                    None => false,
                    Some(TransferUploadState::Complete) => true,
                    Some(TransferUploadState::Writable) => {
                        self.inner = Some(uploads);
                        return (PollStep::SubmitTransfer, Vec::new());
                    },
                    Some(TransferUploadState::PendingSubmitDstQueue) => {
                        self.inner = Some(uploads);
                        return (PollStep::SubmitDst, Vec::new());
                    },
                    Some(_) => {
                        self.inner = Some(uploads);
                        return (PollStep::Done(InProgressTransferPollResult::Pending), Vec::new());
                    },
                };
                let mut out: Vec<BufferUploadResult> = Vec::new();
                let mut k: usize = 0;
                while k < uploads.len()
                    invariant
                        k <= uploads@.len(),
                        out@ == finished(uploads@.take(k as int), ok),
                    decreases uploads@.len() - k,
                {
                    let id = BufferUploadId { id: uploads[k] };
                    let r = if ok {
                        BufferUploadResult::UploadComplete(id)
                    } else {
                        BufferUploadResult::UploadError(id)
                    };
                    out.push(r);
                    proof {
                        assert(finished(uploads@.take(k + 1), ok) =~= finished(uploads@.take(k as int), ok).push(r));
                    }
                    k += 1;
                }
                proof {
                    assert(uploads@.take(uploads@.len() as int) =~= uploads@);
                }
                if ok {
                    (PollStep::Done(InProgressTransferPollResult::Complete), out)
                } else {
                    (PollStep::Done(InProgressTransferPollResult::Error), out)
                }
            },
        }
    }
}

/// Uploads waiting for transfers, the transfer being packed, the transfers in flight and
/// the answers not yet handed on.
pub struct UploadQueue {
    config: BufferUploaderConfig,
    pending: Vec<u64>,
    next_upload: Option<u64>,
    trying: Option<u64>,
    packing: Vec<u64>,
    packing_stopped: bool,
    transfers_in_progress: Vec<InProgressTransfer>,
    results: Vec<BufferUploadResult>,
}

/// The uploads of a transfer that has not finished.
pub open spec fn transfer_uploads(t: InProgressTransfer) -> Seq<u64> {
    t.uploads().unwrap()
}

impl UploadQueue {
    /// The queue as values.
    pub closed spec fn view(&self) -> QueueView {
        QueueView {
            config: self.config,
            pending: self.pending@,
            next_upload: self.next_upload,
            trying: self.trying,
            packed: self.packing@,
            packing_stopped: self.packing_stopped,
            transfers: self.transfers_in_progress@.map_values(|t: InProgressTransfer| transfer_uploads(t)),
            results: self.results@,
        }
    }

    /// The view is well formed and no transfer in flight has finished.
    pub closed spec fn wf(&self) -> bool {
        &&& self@.wf()
        &&& forall|k: int|
            0 <= k < self.transfers_in_progress@.len() ==> (#[trigger] self.transfers_in_progress@[k]).uploads() is Some
    }

    /// An empty queue.
    pub fn new(config: BufferUploaderConfig) -> (q: UploadQueue)
        ensures
            q.wf(),
            q@ == (QueueView {
                config,
                pending: Seq::empty(),
                next_upload: None,
                trying: None,
                packed: Seq::empty(),
                packing_stopped: false,
                transfers: Seq::empty(),
                results: Seq::empty(),
            }),
    {
        let q = UploadQueue {
            config,
            pending: Vec::new(),
            next_upload: None,
            trying: None,
            packing: Vec::new(),
            packing_stopped: false,
            transfers_in_progress: Vec::new(),
            results: Vec::new(),
        };
        proof {
            assert(q@.transfers =~= Seq::<Seq<u64>>::empty());
        }
        q
    }

    /// Upload `id` waits, after the ones already waiting.
    pub fn push_pending(&mut self, id: u64)
        requires
            old(self).wf(),
        ensures
            final(self).wf(),
            final(self)@ == (QueueView { pending: old(self)@.pending.push(id), ..old(self)@ }),
    {
        self.pending.push(id);
    }

    /// Whether another transfer may start this frame, `started` having started (see
    /// `may_start`).
    pub fn may_start_transfer(&self, started: usize) -> (r: bool)
        ensures
            r == may_start(self@, started as int),
    {
        started < self.config.max_new_transfers_in_single_frame && (self.pending.len() > 0
            || self.next_upload.is_some()) && self.transfers_in_progress.len()
            < self.config.max_concurrent_transfers
    }

    /// The upload to write next into the transfer being packed (see `enqueue_next`).
    pub fn next_upload_to_enqueue(&mut self) -> (r: Option<u64>)
        requires
            old(self).wf(),
        ensures
            final(self).wf(),
            (final(self)@, r) == enqueue_next(old(self)@),
    {
        if self.trying.is_some() {
            return self.trying;
        }
        if self.packing_stopped {
            return None;
        }
        if let Some(id) = self.next_upload {
            self.next_upload = None;
            self.trying = Some(id);
            return Some(id);
        }
        if self.pending.len() > 0 {
            let id = self.pending.remove(0);
            self.trying = Some(id);
            proof {
                assert(self.pending@ =~= old(self)@.pending.drop_first());
            }
            Some(id)
        } else {
            None
        }
    }

    /// Writing the upload being written had `outcome` (see `after_outcome`).
    pub fn enqueue_outcome(&mut self, outcome: EnqueueOutcome)
        requires
            old(self).wf(),
        ensures
            final(self).wf(),
            final(self)@ == after_outcome(old(self)@, outcome),
    {
        if let Some(id) = self.trying {
            self.trying = None;
            match outcome {
                EnqueueOutcome::Enqueued => {
                    self.packing.push(id);
                },
                EnqueueOutcome::BufferFull => {
                    self.next_upload = Some(id);
                    self.packing_stopped = true;
                },
                EnqueueOutcome::Failed => {
                    self.results.push(BufferUploadResult::UploadDrop(BufferUploadId { id }));
                    push_dropped(&mut self.results, &self.packing);
                    self.packing = Vec::new();
                    self.packing_stopped = false;
                    proof {
                        assert(self.packing@ =~= Seq::<u64>::empty());
                    }
                },
            }
        }
    }

    /// Whether the transfer being packed holds any upload.
    pub fn has_packed_uploads(&self) -> (r: bool)
        ensures
            r == (self@.packed.len() > 0),
    {
        self.packing.len() > 0
    }

    /// Packing ends, the transfer having been `submitted` or not; returns whether a
    /// transfer started (see `after_finish`).
    pub fn finish_transfer(&mut self, submitted: bool) -> (started: bool)
        requires
            old(self).wf(),
        ensures
            final(self).wf(),
            (final(self)@, started) == after_finish(old(self)@, submitted),
    {
        if let Some(id) = self.trying {
            self.trying = None;
            self.next_upload = Some(id);
        }
        self.packing_stopped = false;
        if self.packing.len() == 0 {
            return false;
        }
        let mut packed: Vec<u64> = Vec::new();
        std::mem::swap(&mut packed, &mut self.packing);
        proof {
            assert(self.packing@ =~= Seq::<u64>::empty());
        }
        if submitted {
            let ghost before = self.transfers_in_progress@;
            let t = InProgressTransfer::new(packed);
            self.transfers_in_progress.push(t);
            proof {
                assert(self.transfers_in_progress@.map_values(|t: InProgressTransfer| transfer_uploads(t))
                    =~= before.map_values(|t: InProgressTransfer| transfer_uploads(t)).push(
                    transfer_uploads(t),
                ));
                assert forall|k: int| 0 <= k < self.transfers_in_progress@.len() implies (
                #[trigger] self.transfers_in_progress@[k]).uploads() is Some by {
                    if k < before.len() {
                        assert(self.transfers_in_progress@[k] == before[k]);
                    }
                }
            }
            true
        } else {
            push_dropped(&mut self.results, &packed);
            false
        }
    }

    /// How many transfers are in flight.
    pub fn transfers_in_progress(&self) -> (n: usize)
        ensures
            n == self@.transfers.len(),
    {
        self.transfers_in_progress.len()
    }

    /// One poll of transfer `i`, given the state reported for it (see `after_poll`).
    pub fn poll_transfer(&mut self, i: usize, state: Option<TransferUploadState>) -> (step: PollStep)
        requires
            old(self).wf(),
            i < old(self)@.transfers.len(),
        ensures
            final(self).wf(),
            (final(self)@, step) == after_poll(old(self)@, i as int, state),
            step != PollStep::Done(InProgressTransferPollResult::Destroyed),
    {
        let step = match state {
            None => PollStep::Done(InProgressTransferPollResult::Error),
            Some(TransferUploadState::Writable) => PollStep::SubmitTransfer,
            Some(TransferUploadState::PendingSubmitDstQueue) => PollStep::SubmitDst,
            Some(TransferUploadState::Complete) => PollStep::Done(InProgressTransferPollResult::Complete),
            Some(_) => PollStep::Done(InProgressTransferPollResult::Pending),
        };
        if step == PollStep::Done(InProgressTransferPollResult::Complete) || step == PollStep::Done(
            InProgressTransferPollResult::Error,
        ) {
            let ghost before = self.transfers_in_progress@;
            let mut t = self.transfers_in_progress.swap_remove(i);
            assert(t.uploads() is Some);
            let (_, mut rs) = t.poll(state);
            self.results.append(&mut rs);
            proof {
                let f = |t: InProgressTransfer| transfer_uploads(t);
                assert(self.transfers_in_progress@.map_values(f) =~= before.map_values(f).update(
                    i as int,
                    before.map_values(f).last(),
                ).drop_last());
                assert forall|k: int| 0 <= k < self.transfers_in_progress@.len() implies (
                #[trigger] self.transfers_in_progress@[k]).uploads() is Some by {
                    if k == i {
                        assert(self.transfers_in_progress@[k] == before.last());
                    } else {
                        assert(self.transfers_in_progress@[k] == before[k]);
                    }
                }
            }
        }
        step
    }

    /// Hands on the answers, in order.
    pub fn take_results(&mut self) -> (r: Vec<BufferUploadResult>)
        requires
            old(self).wf(),
        ensures
            final(self).wf(),
            r@ == old(self)@.results,
            final(self)@ == (QueueView { results: Seq::empty(), ..old(self)@ }),
    {
        let mut r: Vec<BufferUploadResult> = Vec::new();
        std::mem::swap(&mut r, &mut self.results);
        proof {
            assert(self.results@ =~= Seq::<BufferUploadResult>::empty());
        }
        r
    }
}

/// The uploads `0 .. n`, each once.
pub open spec fn issued(n: nat) -> Multiset<u64>
    decreases n,
{
    if n == 0 {
        Multiset::empty()
    } else {
        issued((n - 1) as nat).insert((n - 1) as u64)
    }
}

proof fn lemma_issued_count(n: nat, id: u64)
    requires
        n <= u64::MAX + 1,
    ensures
        issued(n).count(id) == if id < n { 1nat } else { 0nat },
    decreases n,
{
    if n > 0 {
        lemma_issued_count((n - 1) as nat, id);
    }
}

/// Hands out upload ids, queues the uploads and hands on their answers, keeping account of
/// every upload.
pub struct BufferUploader {
    upload_queue: UploadQueue,
    current_id: u64,
    delivered: Ghost<Multiset<u64>>,
    handed: Ghost<Multiset<u64>>,
    wrapped: Ghost<bool>,
}

impl BufferUploader {
    /// The upload queue, as values.
    pub closed spec fn queue(&self) -> QueueView {
        self.upload_queue@
    }

    /// The id the next upload gets.
    pub closed spec fn next_id(&self) -> u64 {
        self.current_id
    }

    /// The uploads whose answers were handed on.
    pub closed spec fn delivered(&self) -> Multiset<u64> {
        self.delivered@
    }

    /// The ids of the uploads handed out so far, each as many times as it was handed out.
    pub closed spec fn handed_out(&self) -> Multiset<u64> {
        self.handed@
    }

    /// Whether the ids ran past the largest `u64` and started over.
    pub closed spec fn ids_wrapped(&self) -> bool {
        self.wrapped@
    }

    /// The queue is well formed; the uploads held, answered and handed on are exactly those
    /// handed out, as many times as each was handed out; until the ids start over, those are
    /// the ids from 0 below the next one, each once.
    pub closed spec fn wf(&self) -> bool {
        &&& self.upload_queue.wf()
        &&& self.upload_queue@.accounted().add(self.delivered@) == self.handed@
        &&& !self.wrapped@ ==> self.handed@ == issued(self.current_id as nat)
    }

    /// An uploader with nothing handed out.
    pub fn new(config: BufferUploaderConfig) -> (u: BufferUploader)
        ensures
            u.wf(),
            u.queue() == (QueueView {
                config,
                pending: Seq::empty(),
                next_upload: None,
                trying: None,
                packed: Seq::empty(),
                packing_stopped: false,
                transfers: Seq::empty(),
                results: Seq::empty(),
            }),
            u.next_id() == 0,
            u.delivered() == Multiset::<u64>::empty(),
            u.handed_out() == Multiset::<u64>::empty(),
            !u.ids_wrapped(),
    {
        let u = BufferUploader {
            upload_queue: UploadQueue::new(config),
            current_id: 0,
            delivered: Ghost(Multiset::empty()),
            handed: Ghost(Multiset::empty()),
            wrapped: Ghost(false),
        };
        proof {
            assert(Seq::<u64>::empty().to_multiset() =~= Multiset::empty());
            assert(result_ids(Seq::<BufferUploadResult>::empty()) =~= Seq::<u64>::empty());
            assert(u.upload_queue@.accounted().add(u.delivered@) =~= Multiset::<u64>::empty());
        }
        u
    }

    /// A new upload of `data_len` bytes: it gets the next id (ids count up from 0 and start
    /// over after the largest `u64`) and waits after the ones already waiting.
    pub fn upload_buffer(&mut self, data_len: usize) -> (id: BufferUploadId)
        requires
            old(self).wf(),
            data_len > 0,
        ensures
            final(self).wf(),
            id.id == old(self).next_id(),
            final(self).next_id() == if old(self).next_id() == u64::MAX {
                0
            } else {
                old(self).next_id() + 1
            },
            final(self).queue() == (QueueView { pending: old(self).queue().pending.push(id.id), ..old(self).queue() }),
            final(self).delivered() == old(self).delivered(),
            final(self).handed_out() == old(self).handed_out().insert(id.id),
            final(self).ids_wrapped() == (old(self).ids_wrapped() || old(self).next_id() == u64::MAX),
    {
        let id = self.current_id;
        self.upload_queue.push_pending(id);
        self.handed = Ghost(self.handed@.insert(id));
        proof {
            let v = old(self).upload_queue@;
            assert(self.upload_queue@.accounted() =~= v.accounted().insert(id));
            assert(self.upload_queue@.accounted().add(self.delivered@) =~= v.accounted().add(
                self.delivered@,
            ).insert(id));
        }
        if id == u64::MAX {
            self.current_id = 0;
            self.wrapped = Ghost(true);
        } else {
            self.current_id = id + 1;
            proof {
                assert(issued((id + 1) as nat) == issued(id as nat).insert(id));
            }
        }
        BufferUploadId { id }
    }

    /// Whether another transfer may start this frame, `started` having started (see
    /// `may_start`).
    pub fn may_start_transfer(&self, started: usize) -> (r: bool)
        ensures
            r == may_start(self.queue(), started as int),
    {
        self.upload_queue.may_start_transfer(started)
    }

    /// The upload to write next into the transfer being packed (see `enqueue_next`).
    pub fn next_upload_to_enqueue(&mut self) -> (r: Option<u64>)
        requires
            old(self).wf(),
        ensures
            final(self).wf(),
            (final(self).queue(), r) == enqueue_next(old(self).queue()),
            final(self).handed_out() == old(self).handed_out(),
            final(self).queue().accounted() == old(self).queue().accounted(),
            final(self).next_id() == old(self).next_id(),
            final(self).delivered() == old(self).delivered(),
            final(self).ids_wrapped() == old(self).ids_wrapped(),
    {
        proof {
            lemma_enqueue_next_keeps(self.upload_queue@);
        }
        let r = self.upload_queue.next_upload_to_enqueue();
        proof {
            assert(self.upload_queue@.accounted() =~= old(self).upload_queue@.accounted());
        }
        r
    }

    /// Writing the upload being written had `outcome` (see `after_outcome`).
    pub fn enqueue_outcome(&mut self, outcome: EnqueueOutcome)
        requires
            old(self).wf(),
        ensures
            final(self).wf(),
            final(self).queue() == after_outcome(old(self).queue(), outcome),
            final(self).handed_out() == old(self).handed_out(),
            final(self).queue().accounted() == old(self).queue().accounted(),
            final(self).next_id() == old(self).next_id(),
            final(self).delivered() == old(self).delivered(),
            final(self).ids_wrapped() == old(self).ids_wrapped(),
    {
        proof {
            lemma_after_outcome_keeps(self.upload_queue@, outcome);
        }
        self.upload_queue.enqueue_outcome(outcome);
    }

    /// Whether the transfer being packed holds any upload.
    pub fn has_packed_uploads(&self) -> (r: bool)
        ensures
            r == (self.queue().packed.len() > 0),
    {
        self.upload_queue.has_packed_uploads()
    }

    /// Packing ends, the transfer having been `submitted` or not; returns whether a
    /// transfer started (see `after_finish`).
    pub fn finish_transfer(&mut self, submitted: bool) -> (started: bool)
        requires
            old(self).wf(),
        ensures
            final(self).wf(),
            (final(self).queue(), started) == after_finish(old(self).queue(), submitted),
            final(self).handed_out() == old(self).handed_out(),
            final(self).queue().accounted() == old(self).queue().accounted(),
            final(self).next_id() == old(self).next_id(),
            final(self).delivered() == old(self).delivered(),
            final(self).ids_wrapped() == old(self).ids_wrapped(),
    {
        proof {
            lemma_after_finish_keeps(self.upload_queue@, submitted);
        }
        self.upload_queue.finish_transfer(submitted)
    }

    /// How many transfers are in flight.
    pub fn transfers_in_progress(&self) -> (n: usize)
        ensures
            n == self.queue().transfers.len(),
    {
        self.upload_queue.transfers_in_progress()
    }

    /// One poll of transfer `i`, given the state reported for it (see `after_poll`).
    pub fn poll_transfer(&mut self, i: usize, state: Option<TransferUploadState>) -> (step: PollStep)
        requires
            old(self).wf(),
            i < old(self).queue().transfers.len(),
        ensures
            final(self).wf(),
            (final(self).queue(), step) == after_poll(old(self).queue(), i as int, state),
            final(self).handed_out() == old(self).handed_out(),
            final(self).queue().accounted() == old(self).queue().accounted(),
            final(self).next_id() == old(self).next_id(),
            final(self).delivered() == old(self).delivered(),
            final(self).ids_wrapped() == old(self).ids_wrapped(),
    {
        proof {
            lemma_after_poll_keeps(self.upload_queue@, i as int, state);
        }
        self.upload_queue.poll_transfer(i, state)
    }

    /// Hands on the answers gathered so far, in order.
    pub fn take_results(&mut self) -> (r: Vec<BufferUploadResult>)
        requires
            old(self).wf(),
        ensures
            final(self).wf(),
            r@ == old(self).queue().results,
            final(self).queue() == (QueueView { results: Seq::empty(), ..old(self).queue() }),
            final(self).delivered() == old(self).delivered().add(result_ids(r@).to_multiset()),
            final(self).handed_out() == old(self).handed_out(),
            final(self).next_id() == old(self).next_id(),
            final(self).ids_wrapped() == old(self).ids_wrapped(),
    {
        let r = self.upload_queue.take_results();
        self.delivered = Ghost(self.delivered@.add(result_ids(r@).to_multiset()));
        proof {
            assert(result_ids(Seq::<BufferUploadResult>::empty()) =~= Seq::<u64>::empty());
            assert(Seq::<u64>::empty().to_multiset() =~= Multiset::empty());
            assert(self.upload_queue@.accounted().add(self.delivered@) =~= old(self).upload_queue@.accounted().add(
                old(self).delivered@,
            ));
        }
        r
    }
}

/// Every upload handed out gets exactly one answer: at any time, each upload handed out is
/// either still on its way (waiting, being written, or carried by a transfer) or answered,
/// once (answered and not yet handed on, or handed on); nothing else is. Counted with
/// multiplicity, this holds however many ids were handed out, also after they start over.
pub proof fn lemma_each_upload_answered_once(u: &BufferUploader)
    requires
        u.wf(),
    ensures
        u.queue().held().add(u.queue().answered()).add(u.delivered()) == u.handed_out(),
{
}

/// Every upload handed out is accounted for exactly once: waiting, being written, carried
/// by a transfer, answered, or answered and handed on; an id not handed out yet is nowhere.
/// This holds until the ids run past the largest `u64` and start over.
pub proof fn lemma_each_upload_once(u: &BufferUploader, id: u64)
    requires
        u.wf(),
        !u.ids_wrapped(),
    ensures
        u.queue().held().count(id) + u.queue().answered().count(id) + u.delivered().count(id) == if id
            < u.next_id() {
            1int
        } else {
            0int
        },
{
    lemma_issued_count(u.next_id() as nat, id);
    assert(u.queue().accounted().add(u.delivered()).count(id) == u.handed_out().count(id));
}

} // verus!
