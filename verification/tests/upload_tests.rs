use rts::upload::{
    BufferUploadId, BufferUploadResult, BufferUploader, BufferUploaderConfig, EnqueueOutcome,
    InProgressTransfer, InProgressTransferPollResult, PollStep, TransferUploadState,
};

fn config(concurrent: usize, per_frame: usize) -> BufferUploaderConfig {
    BufferUploaderConfig {
        max_bytes_per_transfer: 1024,
        max_concurrent_transfers: concurrent,
        max_new_transfers_in_single_frame: per_frame,
    }
}

fn drop_of(id: u64) -> BufferUploadResult {
    BufferUploadResult::UploadDrop(BufferUploadId { id })
}

fn complete_of(id: u64) -> BufferUploadResult {
    BufferUploadResult::UploadComplete(BufferUploadId { id })
}

fn error_of(id: u64) -> BufferUploadResult {
    BufferUploadResult::UploadError(BufferUploadId { id })
}

/// Packs uploads into a transfer with the given outcomes, in order, then finishes it.
fn pack(u: &mut BufferUploader, outcomes: &[EnqueueOutcome], submitted: bool) -> (Vec<u64>, bool) {
    let mut tried = vec![];
    for outcome in outcomes {
        let id = u.next_upload_to_enqueue().expect("an upload to write");
        tried.push(id);
        u.enqueue_outcome(*outcome);
    }
    let started = u.finish_transfer(submitted);
    (tried, started)
}

#[test]
fn upload_ids_count_up_from_zero() {
    let mut u = BufferUploader::new(config(2, 1));
    assert_eq!(u.upload_buffer(16).id, 0);
    assert_eq!(u.upload_buffer(16).id, 1);
    assert_eq!(u.upload_buffer(3).id, 2);
}

#[test]
fn transfer_is_packed_in_order_until_full() {
    let mut u = BufferUploader::new(config(2, 1));
    for _ in 0..3 {
        u.upload_buffer(8);
    }
    assert!(u.may_start_transfer(0));
    assert_eq!(u.next_upload_to_enqueue(), Some(0));
    // asking again before the outcome gives the same upload
    assert_eq!(u.next_upload_to_enqueue(), Some(0));
    u.enqueue_outcome(EnqueueOutcome::Enqueued);
    assert_eq!(u.next_upload_to_enqueue(), Some(1));
    u.enqueue_outcome(EnqueueOutcome::Enqueued);
    assert_eq!(u.next_upload_to_enqueue(), Some(2));
    u.enqueue_outcome(EnqueueOutcome::BufferFull);
    assert_eq!(u.next_upload_to_enqueue(), None);
    assert!(u.has_packed_uploads());
    assert!(u.finish_transfer(true));
    assert_eq!(u.transfers_in_progress(), 1);
    // one transfer per frame
    assert!(!u.may_start_transfer(1));
    // the upload with no room goes first into the next transfer
    assert!(u.may_start_transfer(0));
    assert_eq!(u.next_upload_to_enqueue(), Some(2));
}

#[test]
fn transfers_in_flight_are_bounded() {
    let mut u = BufferUploader::new(config(1, 4));
    u.upload_buffer(8);
    u.upload_buffer(8);
    let (_, started) = pack(&mut u, &[EnqueueOutcome::Enqueued], true);
    assert!(started);
    assert_eq!(u.transfers_in_progress(), 1);
    assert!(!u.may_start_transfer(1));
}

#[test]
fn nothing_waiting_starts_no_transfer() {
    let u = BufferUploader::new(config(2, 2));
    assert!(!u.may_start_transfer(0));
}

#[test]
fn polling_walks_the_transfer_states() {
    let mut u = BufferUploader::new(config(2, 1));
    u.upload_buffer(8);
    u.upload_buffer(8);
    let (tried, started) = pack(&mut u, &[EnqueueOutcome::Enqueued, EnqueueOutcome::Enqueued], true);
    assert_eq!(tried, vec![0, 1]);
    assert!(started);
    assert_eq!(u.poll_transfer(0, Some(TransferUploadState::Writable)), PollStep::SubmitTransfer);
    assert_eq!(
        u.poll_transfer(0, Some(TransferUploadState::SentToTransferQueue)),
        PollStep::Done(InProgressTransferPollResult::Pending)
    );
    assert_eq!(u.poll_transfer(0, Some(TransferUploadState::PendingSubmitDstQueue)), PollStep::SubmitDst);
    assert_eq!(
        u.poll_transfer(0, Some(TransferUploadState::SentToDstQueue)),
        PollStep::Done(InProgressTransferPollResult::Pending)
    );
    assert_eq!(u.transfers_in_progress(), 1);
    assert!(u.take_results().is_empty());
    assert_eq!(
        u.poll_transfer(0, Some(TransferUploadState::Complete)),
        PollStep::Done(InProgressTransferPollResult::Complete)
    );
    assert_eq!(u.transfers_in_progress(), 0);
    assert_eq!(u.take_results(), vec![complete_of(0), complete_of(1)]);
    assert!(u.take_results().is_empty());
}

#[test]
fn failed_transfer_fails_each_upload() {
    let mut u = BufferUploader::new(config(2, 1));
    u.upload_buffer(8);
    u.upload_buffer(8);
    pack(&mut u, &[EnqueueOutcome::Enqueued, EnqueueOutcome::Enqueued], true);
    assert_eq!(u.poll_transfer(0, None), PollStep::Done(InProgressTransferPollResult::Error));
    assert_eq!(u.take_results(), vec![error_of(0), error_of(1)]);
}

#[test]
fn finished_transfer_leaves_its_place_to_the_last() {
    let mut u = BufferUploader::new(config(3, 3));
    for _ in 0..3 {
        u.upload_buffer(8);
    }
    for _ in 0..3 {
        pack(&mut u, &[EnqueueOutcome::Enqueued], true);
    }
    assert_eq!(u.transfers_in_progress(), 3);
    // transfer 0 completes; the last one (upload 2) takes its place
    u.poll_transfer(0, Some(TransferUploadState::Complete));
    assert_eq!(u.transfers_in_progress(), 2);
    u.poll_transfer(0, None);
    assert_eq!(u.take_results(), vec![complete_of(0), error_of(2)]);
}

#[test]
fn failed_write_drops_the_upload_and_the_written_ones() {
    let mut u = BufferUploader::new(config(2, 1));
    for _ in 0..3 {
        u.upload_buffer(8);
    }
    assert_eq!(u.next_upload_to_enqueue(), Some(0));
    u.enqueue_outcome(EnqueueOutcome::Enqueued);
    assert_eq!(u.next_upload_to_enqueue(), Some(1));
    u.enqueue_outcome(EnqueueOutcome::Failed);
    assert!(!u.has_packed_uploads());
    assert_eq!(u.take_results(), vec![drop_of(1), drop_of(0)]);
    // upload 2 still waits
    assert_eq!(u.next_upload_to_enqueue(), Some(2));
}

#[test]
fn unsubmitted_transfer_drops_its_uploads() {
    let mut u = BufferUploader::new(config(2, 1));
    u.upload_buffer(8);
    u.upload_buffer(8);
    let (_, started) = pack(&mut u, &[EnqueueOutcome::Enqueued, EnqueueOutcome::Enqueued], false);
    assert!(!started);
    assert_eq!(u.transfers_in_progress(), 0);
    assert_eq!(u.take_results(), vec![drop_of(0), drop_of(1)]);
}

#[test]
fn upload_too_large_for_a_transfer_waits_forever() {
    let mut u = BufferUploader::new(config(2, 1));
    u.upload_buffer(100_000);
    u.upload_buffer(8);
    for _ in 0..3 {
        assert!(u.may_start_transfer(0));
        assert_eq!(u.next_upload_to_enqueue(), Some(0));
        u.enqueue_outcome(EnqueueOutcome::BufferFull);
        assert_eq!(u.next_upload_to_enqueue(), None);
        assert!(!u.has_packed_uploads());
        assert!(!u.finish_transfer(true));
    }
    assert!(u.take_results().is_empty());
}

#[test]
fn unreported_write_is_carried_over() {
    let mut u = BufferUploader::new(config(2, 1));
    u.upload_buffer(8);
    u.upload_buffer(8);
    assert_eq!(u.next_upload_to_enqueue(), Some(0));
    u.enqueue_outcome(EnqueueOutcome::Enqueued);
    assert_eq!(u.next_upload_to_enqueue(), Some(1));
    assert!(u.finish_transfer(true));
    assert_eq!(u.next_upload_to_enqueue(), Some(1));
}

#[test]
fn every_upload_is_answered_once() {
    let mut u = BufferUploader::new(config(4, 4));
    for _ in 0..6 {
        u.upload_buffer(8);
    }
    pack(&mut u, &[EnqueueOutcome::Enqueued, EnqueueOutcome::Enqueued, EnqueueOutcome::BufferFull], true);
    pack(&mut u, &[EnqueueOutcome::Enqueued, EnqueueOutcome::Failed], true);
    pack(&mut u, &[EnqueueOutcome::Enqueued, EnqueueOutcome::Enqueued], false);
    u.poll_transfer(0, Some(TransferUploadState::Complete));
    let mut answered: Vec<u64> = u
        .take_results()
        .iter()
        .map(|r| match r {
            BufferUploadResult::UploadError(i) | BufferUploadResult::UploadComplete(i) | BufferUploadResult::UploadDrop(i) => i.id,
        })
        .collect();
    answered.sort();
    assert_eq!(answered, vec![0, 1, 2, 3, 4, 5]);
}

#[test]
fn transfer_poll_answers_its_uploads_once() {
    let mut t = InProgressTransfer::new(vec![5, 6]);
    assert_eq!(t.poll(Some(TransferUploadState::Writable)), (PollStep::SubmitTransfer, vec![]));
    assert_eq!(
        t.poll(Some(TransferUploadState::Complete)),
        (PollStep::Done(InProgressTransferPollResult::Complete), vec![complete_of(5), complete_of(6)])
    );
    assert_eq!(t.poll(Some(TransferUploadState::Complete)), (PollStep::Done(InProgressTransferPollResult::Destroyed), vec![]));
}
