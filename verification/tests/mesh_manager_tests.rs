use rts::dyn_mesh::{BufferKind, MeshDataError, MeshToDraw};
use rts::mesh_manager::DynMeshManager;
use rts::upload::{BufferUploaderConfig, EnqueueOutcome, InProgressTransferPollResult, PollStep, TransferUploadState};

fn manager() -> DynMeshManager {
    let mut m = DynMeshManager::new();
    m.init_buffer_uploader(BufferUploaderConfig {
        max_bytes_per_transfer: 1 << 20,
        max_concurrent_transfers: 4,
        max_new_transfers_in_single_frame: 4,
    });
    m
}

/// Writes every waiting upload into one transfer and submits it.
fn send_all(m: &mut DynMeshManager) {
    while m.next_upload_to_enqueue().is_some() {
        m.enqueue_outcome(EnqueueOutcome::Enqueued);
    }
    assert!(m.finish_transfer(true));
}

#[test]
fn mesh_completes_when_its_buffers_arrive() {
    let mut m = manager();
    assert_eq!(m.add_dyn_mesh(Some(48), Some(12), Some(6)), Ok(0));
    assert_eq!(m.get_dyn_mesh(0), MeshToDraw::Nothing);
    assert!(m.may_start_transfer(0));
    send_all(&mut m);
    assert_eq!(m.transfers_in_progress(), 1);
    assert_eq!(m.poll_transfer(0, Some(TransferUploadState::Writable)), PollStep::SubmitTransfer);
    assert_eq!(
        m.poll_transfer(0, Some(TransferUploadState::Complete)),
        PollStep::Done(InProgressTransferPollResult::Complete)
    );
    let routed = m.process_upload_results();
    assert_eq!(
        routed,
        vec![
            (BufferKind::VertexFull, 0, 0, true),
            (BufferKind::VertexPosition, 1, 0, true),
            (BufferKind::Index, 2, 0, true),
        ]
    );
    assert_eq!(m.get_dyn_mesh(0), MeshToDraw::Current);
    assert!(m.process_upload_results().is_empty());
}

#[test]
fn bad_mesh_data_is_refused() {
    let mut m = manager();
    assert_eq!(m.add_dyn_mesh(None, Some(12), Some(6)), Err(MeshDataError::NotInitialized));
    assert_eq!(m.add_dyn_mesh(Some(48), Some(0), Some(6)), Err(MeshDataError::NoData));
    assert!(!m.may_start_transfer(0));
}

#[test]
fn answers_are_routed_kind_by_kind() {
    let mut m = manager();
    assert_eq!(m.add_dyn_mesh(Some(48), Some(12), Some(6)), Ok(0));
    assert_eq!(m.add_dyn_mesh(Some(48), Some(12), Some(6)), Ok(1));
    send_all(&mut m);
    m.poll_transfer(0, Some(TransferUploadState::Complete));
    assert_eq!(
        m.process_upload_results(),
        vec![
            (BufferKind::VertexFull, 0, 0, true),
            (BufferKind::VertexFull, 3, 1, true),
            (BufferKind::VertexPosition, 1, 0, true),
            (BufferKind::VertexPosition, 4, 1, true),
            (BufferKind::Index, 2, 0, true),
            (BufferKind::Index, 5, 1, true),
        ]
    );
    assert_eq!(m.get_dyn_mesh(1), MeshToDraw::Current);
}

#[test]
fn updated_mesh_stays_drawn_until_its_new_buffers_fail() {
    let mut m = manager();
    m.add_dyn_mesh(Some(48), Some(12), Some(6)).unwrap();
    send_all(&mut m);
    m.poll_transfer(0, Some(TransferUploadState::Complete));
    m.process_upload_results();
    assert_eq!(m.update_dyn_mesh(0, Some(96), Some(24), Some(12)), Ok(()));
    assert_eq!(m.get_dyn_mesh(0), MeshToDraw::Previous);
    send_all(&mut m);
    assert_eq!(m.poll_transfer(0, None), PollStep::Done(InProgressTransferPollResult::Error));
    let routed = m.process_upload_results();
    assert_eq!(routed.len(), 3);
    assert!(routed.iter().all(|r| !r.3 && r.2 == 0));
    assert_eq!(m.get_dyn_mesh(0), MeshToDraw::Nothing);
}

#[test]
fn without_uploader_nothing_moves() {
    let mut m = DynMeshManager::new();
    assert!(!m.may_start_transfer(0));
    assert_eq!(m.next_upload_to_enqueue(), None);
    assert_eq!(m.transfers_in_progress(), 0);
    assert!(m.process_upload_results().is_empty());
}
