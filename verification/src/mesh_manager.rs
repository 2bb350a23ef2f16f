//! Dynamic meshes uploaded through a buffer uploader: adding or updating a mesh uploads its
//! three buffers, and every answer of the uploader reaches the mesh whose buffer it was.

use crate::dyn_mesh::{
    after_result, check_mesh_data, drawn, mesh_data_check, BufferKind, DynMeshUploads, MeshDataError,
    MeshToDraw, MeshUploadState,
};
use crate::upload::{
    enqueue_next, after_finish, after_outcome, after_poll, lemma_each_upload_once, lemma_push_pending_accounted,
    may_start, result_id, result_ids, BufferUploadResult, BufferUploader, BufferUploaderConfig,
    EnqueueOutcome, PollStep, QueueView, TransferUploadState,
};
use vstd::prelude::*;

verus! {

broadcast use {
    vstd::seq_lib::group_to_multiset_ensures,
    vstd::multiset::group_multiset_axioms,
    vstd::multiset::group_multiset_properties,
};

/// Whether upload `id` is pending for some buffer kind of `m`.
pub open spec fn pending_upload(m: DynMeshUploads, id: u64) -> bool {
    ||| m.uploads(BufferKind::VertexFull).contains_key(id)
    ||| m.uploads(BufferKind::VertexPosition).contains_key(id)
    ||| m.uploads(BufferKind::Index).contains_key(id)
}

/// Whether no upload is pending for two buffer kinds of `m`.
pub open spec fn kinds_disjoint(m: DynMeshUploads) -> bool {
    forall|id: u64, a: BufferKind, b: BufferKind|
        a != b && #[trigger] m.uploads(a).contains_key(id) ==> !#[trigger] m.uploads(b).contains_key(id)
}

/// The answers among `rs` to the uploads pending in `m` (those of buffer kind `kind`), in
/// order, each with its kind, its upload, its mesh and whether the buffer arrived.
pub open spec fn route_kind(rs: Seq<BufferUploadResult>, m: Map<u64, usize>, kind: BufferKind) -> Seq<
    (BufferKind, u64, usize, bool),
>
    decreases rs.len(),
{
    if rs.len() == 0 {
        Seq::empty()
    } else {
        let prev = route_kind(rs.drop_last(), m, kind);
        let id = result_id(rs.last());
        if m.contains_key(id) {
            prev.push((kind, id, m[id], rs.last() is UploadComplete))
        } else {
            prev
        }
    }
}

/// The answers `rs` routed to the meshes of `meshes`: those for vertex-full buffers first,
/// then those for vertex-position buffers, then those for index buffers.
pub open spec fn routed_results(rs: Seq<BufferUploadResult>, meshes: DynMeshUploads) -> Seq<(BufferKind, u64, usize, bool)> {
    route_kind(rs, meshes.uploads(BufferKind::VertexFull), BufferKind::VertexFull) + route_kind(
        rs,
        meshes.uploads(BufferKind::VertexPosition),
        BufferKind::VertexPosition,
    ) + route_kind(rs, meshes.uploads(BufferKind::Index), BufferKind::Index)
}

/// The mesh states after the routed answers `routed`, taken in order (see `after_result`).
pub open spec fn apply_routed(states: Seq<MeshUploadState>, routed: Seq<(BufferKind, u64, usize, bool)>) -> Seq<
    MeshUploadState,
>
    decreases routed.len(),
{
    if routed.len() == 0 {
        states
    } else {
        let prev = apply_routed(states, routed.drop_last());
        let e = routed.last();
        prev.update(e.2 as int, after_result(prev[e.2 as int], e.0, e.3))
    }
}

proof fn lemma_apply_routed_concat(
    s: Seq<MeshUploadState>,
    a: Seq<(BufferKind, u64, usize, bool)>,
    b: Seq<(BufferKind, u64, usize, bool)>,
)
    ensures
        apply_routed(s, a + b) == apply_routed(apply_routed(s, a), b),
    decreases b.len(),
{
    if b.len() == 0 {
        assert(a + b =~= a);
    } else {
        assert((a + b).drop_last() =~= a + b.drop_last());
        lemma_apply_routed_concat(s, a, b.drop_last());
    }
}

/// Every answer of `rs` is routed once when each is to an upload pending for exactly one
/// buffer kind.
proof fn lemma_route_covers(rs: Seq<BufferUploadResult>, meshes: DynMeshUploads)
    requires
        kinds_disjoint(meshes),
        forall|i: int| 0 <= i < rs.len() ==> pending_upload(meshes, #[trigger] result_id(rs[i])),
    ensures
        routed_results(rs, meshes).len() == rs.len(),
    decreases rs.len(),
{
    if rs.len() > 0 {
        let p = rs.drop_last();
        assert forall|i: int| 0 <= i < p.len() implies pending_upload(meshes, #[trigger] result_id(p[i])) by {
            assert(p[i] == rs[i]);
        }
        lemma_route_covers(p, meshes);
        let id = result_id(rs.last());
        assert(pending_upload(meshes, result_id(rs[rs.len() - 1])));
        if meshes.uploads(BufferKind::VertexFull).contains_key(id) {
            assert(!meshes.uploads(BufferKind::VertexPosition).contains_key(id));
            assert(!meshes.uploads(BufferKind::Index).contains_key(id));
        } else if meshes.uploads(BufferKind::VertexPosition).contains_key(id) {
            assert(!meshes.uploads(BufferKind::Index).contains_key(id));
        }
    }
}

proof fn lemma_push_set(s: Seq<u64>, v: u64)
    ensures
        s.push(v).to_set() =~= s.to_set().insert(v),
{
    assert forall|x: u64| s.push(v).contains(x) <==> (s.contains(x) || x == v) by {
        if s.contains(x) {
            let i = choose|i: int| 0 <= i < s.len() && s[i] == x;
            assert(s.push(v)[i] == x);
        }
        if x == v {
            assert(s.push(v)[s.len() as int] == v);
        }
    }
    assert forall|x: u64| #[trigger] s.push(v).to_set().contains(x) == s.to_set().insert(v).contains(x) by {
        assert(s.push(v).to_set().contains(x) == s.push(v).contains(x));
        assert(s.to_set().contains(x) == s.contains(x));
    }
}

/// A sequence in which nothing occurs twice has no repeats.
proof fn lemma_no_repeats(s: Seq<u64>)
    requires
        forall|x: u64| s.to_multiset().count(x) <= 1,
    ensures
        s.no_duplicates(),
{
    assert forall|i: int, j: int| 0 <= i < s.len() && 0 <= j < s.len() && i != j implies s[i] != s[j] by {
        if s[i] == s[j] {
            let (a, b) = if i < j {
                (i, j)
            } else {
                (j, i)
            };
            let t = s.remove(b);
            assert(t[a] == s[a]);
            assert(t.contains(s[a]));
            assert(t.to_multiset().count(s[a]) > 0);
            assert(s.to_multiset().count(s[b]) >= 2);
        }
    }
}

/// Dynamic meshes and the uploader their buffers go through (none until it is set up).
pub struct DynMeshManager {
    uploader: Option<BufferUploader>,
    meshes: DynMeshUploads,
}

impl DynMeshManager {
    /// The uploader, once set up.
    pub closed spec fn uploader(&self) -> Option<BufferUploader> {
        self.uploader
    }

    /// The meshes and their pending uploads.
    pub closed spec fn meshes(&self) -> DynMeshUploads {
        self.meshes
    }

    /// The uploads pending for the meshes are exactly those the uploader holds or has
    /// answered without handing the answer on, each for one buffer kind; with no uploader
    /// none is pending.
    pub closed spec fn wf(&self) -> bool {
        &&& kinds_disjoint(self.meshes)
        &&& match self.uploader {
            None => forall|id: u64| !#[trigger] pending_upload(self.meshes, id),
            Some(u) => {
                &&& u.wf()
                &&& !u.ids_wrapped()
                &&& forall|id: u64|
                    #![trigger u.queue().accounted().count(id)]
                    #![trigger pending_upload(self.meshes, id)]
                    u.queue().accounted().count(id) > 0 <==> pending_upload(self.meshes, id)
            },
        }
    }

    /// No mesh and no uploader.
    pub fn new() -> (m: DynMeshManager)
        ensures
            m.wf(),
            m.uploader() is None,
            m.meshes().states().len() == 0,
            forall|k: BufferKind| #[trigger] m.meshes().uploads(k) == Map::<u64, usize>::empty(),
    {
        DynMeshManager { uploader: None, meshes: DynMeshUploads::new() }
    }

    /// Sets up the uploader with `config`, unless one is set up already.
    pub fn init_buffer_uploader(&mut self, config: BufferUploaderConfig)
        requires
            old(self).wf(),
        ensures
            final(self).wf(),
            final(self).meshes() == old(self).meshes(),
            old(self).uploader() is Some ==> final(self).uploader() == old(self).uploader(),
            old(self).uploader() is None ==> (final(self).uploader() matches Some(u) && u.queue() == (QueueView {
                config,
                pending: Seq::empty(),
                next_upload: None,
                trying: None,
                packed: Seq::empty(),
                packing_stopped: false,
                transfers: Seq::empty(),
                results: Seq::empty(),
            }) && u.next_id() == 0),
    {
        if self.uploader.is_none() {
            let u = BufferUploader::new(config);
            proof {
                assert forall|id: u64| #![auto] u.queue().accounted().count(id) == 0 by {
                    lemma_each_upload_once(&u, id);
                }
            }
            self.uploader = Some(u);
        }
    }

    /// Which mesh to draw for `handle` (see `drawn`).
    pub fn get_dyn_mesh(&self, handle: usize) -> (r: MeshToDraw)
        requires
            handle < self.meshes().states().len(),
        ensures
            r == drawn(self.meshes().states()[handle as int]),
    {
        self.meshes.get_dyn_mesh(handle)
    }

    /// Uploads three buffers of the given lengths (vertex-full, vertex-position, index),
    /// returning their ids: the uploader's next three.
    fn start_upload(&mut self, vertex_full: usize, vertex_position: usize, index: usize) -> (ids: (u64, u64, u64))
        requires
            old(self).uploader() is Some,
            old(self).uploader().unwrap().wf(),
            !old(self).uploader().unwrap().ids_wrapped(),
            old(self).uploader().unwrap().next_id() <= u64::MAX - 3,
            vertex_full > 0,
            vertex_position > 0,
            index > 0,
        ensures
            ({
                let u = old(self).uploader().unwrap();
                let n = u.next_id();
                &&& ids == (n, (n + 1) as u64, (n + 2) as u64)
                &&& final(self).meshes() == old(self).meshes()
                &&& final(self).uploader() matches Some(v) && {
                    &&& v.wf()
                    &&& !v.ids_wrapped()
                    &&& v.next_id() == n + 3
                    &&& v.delivered() == u.delivered()
                    &&& v.queue() == (QueueView { pending: u.queue().pending.push(ids.0).push(ids.1).push(ids.2), ..u.queue() })
                    &&& v.queue().accounted() =~= u.queue().accounted().insert(ids.0).insert(ids.1).insert(ids.2)
                }
            }),
    {
        let mut u = self.uploader.take().unwrap();
        let ghost q0 = u.queue();
        let a = u.upload_buffer(vertex_full);
        let ghost q1 = u.queue();
        let b = u.upload_buffer(vertex_position);
        let ghost q2 = u.queue();
        let c = u.upload_buffer(index);
        proof {
            lemma_push_pending_accounted(q0, a.id);
            lemma_push_pending_accounted(q1, b.id);
            lemma_push_pending_accounted(q2, c.id);
        }
        self.uploader = Some(u);
        (a.id, b.id, c.id)
    }

    /// A new mesh with buffers of the given lengths (`None` when absent): if they pass the
    /// check (see `mesh_data_check`) the three buffers start uploading and the mesh gets the
    /// next handle; otherwise nothing changes and the check's error is returned.
    pub fn add_dyn_mesh(&mut self, vertex_full: Option<usize>, vertex_position: Option<usize>, index: Option<usize>) -> (r: Result<usize, MeshDataError>)
        requires
            old(self).wf(),
            old(self).uploader() is Some,
            old(self).uploader().unwrap().next_id() <= u64::MAX - 3,
            old(self).meshes().states().len() < usize::MAX,
        ensures
            final(self).wf(),
            mesh_data_check(vertex_full, vertex_position, index) is Err ==> r == Err::<usize, MeshDataError>(
                mesh_data_check(vertex_full, vertex_position, index)->Err_0,
            ) && *final(self) == *old(self),
            mesh_data_check(vertex_full, vertex_position, index) is Ok ==> {
                let u = old(self).uploader().unwrap();
                let n = u.next_id();
                let h = old(self).meshes().states().len();
                &&& r == Ok::<usize, MeshDataError>(h as usize)
                &&& final(self).meshes().states() == old(self).meshes().states().push(
                    MeshUploadState::Uploading { vertex_full: false, vertex_position: false, index: false, previous: false },
                )
                &&& final(self).meshes().uploads(BufferKind::VertexFull) == old(self).meshes().uploads(BufferKind::VertexFull).insert(n, h as usize)
                &&& final(self).meshes().uploads(BufferKind::VertexPosition) == old(self).meshes().uploads(BufferKind::VertexPosition).insert((n + 1) as u64, h as usize)
                &&& final(self).meshes().uploads(BufferKind::Index) == old(self).meshes().uploads(BufferKind::Index).insert((n + 2) as u64, h as usize)
                &&& final(self).uploader() matches Some(v) && v.next_id() == n + 3 && v.queue() == (QueueView {
                    pending: u.queue().pending.push(n).push((n + 1) as u64).push((n + 2) as u64),
                    ..u.queue()
                })
            },
    {
        match check_mesh_data(vertex_full, vertex_position, index) {
            Err(e) => {
                return Err(e);
            },
            Ok(()) => {},
        }
        let ghost old_meshes = self.meshes;
        let ghost u0 = self.uploader.unwrap();
        let ids = self.start_upload(vertex_full.unwrap(), vertex_position.unwrap(), index.unwrap());
        let h = self.meshes.add_dyn_mesh(ids);
        proof {
            self.lemma_fresh_registered(old_meshes, u0, ids, h);
        }
        Ok(h)
    }

    /// New buffers for mesh `handle`, of the given lengths (`None` when absent): if they pass
    /// the check (see `mesh_data_check`) the three buffers start uploading and the mesh waits
    /// for them, still drawn as it was if it had completed; otherwise nothing changes and the
    /// check's error is returned.
    pub fn update_dyn_mesh(
        &mut self,
        handle: usize,
        vertex_full: Option<usize>,
        vertex_position: Option<usize>,
        index: Option<usize>,
    ) -> (r: Result<(), MeshDataError>)
        requires
            old(self).wf(),
            old(self).uploader() is Some,
            old(self).uploader().unwrap().next_id() <= u64::MAX - 3,
            handle < old(self).meshes().states().len(),
        ensures
            final(self).wf(),
            mesh_data_check(vertex_full, vertex_position, index) is Err ==> r == Err::<(), MeshDataError>(
                mesh_data_check(vertex_full, vertex_position, index)->Err_0,
            ) && *final(self) == *old(self),
            mesh_data_check(vertex_full, vertex_position, index) is Ok ==> {
                let u = old(self).uploader().unwrap();
                let n = u.next_id();
                &&& r is Ok
                &&& final(self).meshes().states() == old(self).meshes().states().update(
                    handle as int,
                    MeshUploadState::Uploading {
                        vertex_full: false,
                        vertex_position: false,
                        index: false,
                        previous: old(self).meshes().states()[handle as int] == MeshUploadState::Completed,
                    },
                )
                &&& final(self).meshes().uploads(BufferKind::VertexFull) == old(self).meshes().uploads(BufferKind::VertexFull).insert(n, handle)
                &&& final(self).meshes().uploads(BufferKind::VertexPosition) == old(self).meshes().uploads(BufferKind::VertexPosition).insert((n + 1) as u64, handle)
                &&& final(self).meshes().uploads(BufferKind::Index) == old(self).meshes().uploads(BufferKind::Index).insert((n + 2) as u64, handle)
                &&& final(self).uploader() matches Some(v) && v.next_id() == n + 3 && v.queue() == (QueueView {
                    pending: u.queue().pending.push(n).push((n + 1) as u64).push((n + 2) as u64),
                    ..u.queue()
                })
            },
    {
        match check_mesh_data(vertex_full, vertex_position, index) {
            Err(e) => {
                return Err(e);
            },
            Ok(()) => {},
        }
        let ghost old_meshes = self.meshes;
        let ghost u0 = self.uploader.unwrap();
        let ids = self.start_upload(vertex_full.unwrap(), vertex_position.unwrap(), index.unwrap());
        self.meshes.update_dyn_mesh(handle, ids);
        proof {
            self.lemma_fresh_registered(old_meshes, u0, ids, handle);
        }
        Ok(())
    }

    /// Whether another transfer may start this frame, `started` having started (see
    /// `may_start`); never without an uploader.
    pub fn may_start_transfer(&self, started: usize) -> (r: bool)
        ensures
            r == match self.uploader() {
                Some(u) => may_start(u.queue(), started as int),
                None => false,
            },
    {
        match &self.uploader {
            Some(u) => u.may_start_transfer(started),
            None => false,
        }
    }

    /// The upload to write next into the transfer being packed (see `enqueue_next`); none
    /// without an uploader.
    pub fn next_upload_to_enqueue(&mut self) -> (r: Option<u64>)
        requires
            old(self).wf(),
        ensures
            final(self).wf(),
            final(self).meshes() == old(self).meshes(),
            old(self).uploader() is None ==> r is None && final(self).uploader() is None,
            old(self).uploader() matches Some(u) ==> (final(self).uploader() matches Some(v) && (v.queue(), r)
                == enqueue_next(u.queue()) && v.next_id() == u.next_id()),
    {
        match self.uploader.take() {
            None => None,
            Some(mut u) => {
                let r = u.next_upload_to_enqueue();
                self.uploader = Some(u);
                r
            },
        }
    }

    /// Writing the upload being written had `outcome` (see `after_outcome`); nothing happens
    /// without an uploader.
    pub fn enqueue_outcome(&mut self, outcome: EnqueueOutcome)
        requires
            old(self).wf(),
        ensures
            final(self).wf(),
            final(self).meshes() == old(self).meshes(),
            old(self).uploader() is None ==> final(self).uploader() is None,
            old(self).uploader() matches Some(u) ==> (final(self).uploader() matches Some(v) && v.queue()
                == after_outcome(u.queue(), outcome) && v.next_id() == u.next_id()),
    {
        if let Some(mut u) = self.uploader.take() {
            u.enqueue_outcome(outcome);
            self.uploader = Some(u);
        }
    }

    /// Whether the transfer being packed holds any upload; never without an uploader.
    pub fn has_packed_uploads(&self) -> (r: bool)
        ensures
            r == match self.uploader() {
                Some(u) => u.queue().packed.len() > 0,
                None => false,
            },
    {
        match &self.uploader {
            Some(u) => u.has_packed_uploads(),
            None => false,
        }
    }

    /// Packing ends, the transfer having been `submitted` or not; returns whether a transfer
    /// started (see `after_finish`); none without an uploader.
    pub fn finish_transfer(&mut self, submitted: bool) -> (started: bool)
        requires
            old(self).wf(),
        ensures
            final(self).wf(),
            final(self).meshes() == old(self).meshes(),
            old(self).uploader() is None ==> !started && final(self).uploader() is None,
            old(self).uploader() matches Some(u) ==> (final(self).uploader() matches Some(v) && (v.queue(), started)
                == after_finish(u.queue(), submitted) && v.next_id() == u.next_id()),
    {
        match self.uploader.take() {
            None => false,
            Some(mut u) => {
                let started = u.finish_transfer(submitted);
                self.uploader = Some(u);
                started
            },
        }
    }

    /// How many transfers are in flight; none without an uploader.
    pub fn transfers_in_progress(&self) -> (n: usize)
        ensures
            n == match self.uploader() {
                Some(u) => u.queue().transfers.len(),
                None => 0,
            },
    {
        match &self.uploader {
            Some(u) => u.transfers_in_progress(),
            None => 0,
        }
    }

    /// One poll of transfer `i`, given the state reported for it (see `after_poll`).
    pub fn poll_transfer(&mut self, i: usize, state: Option<TransferUploadState>) -> (step: PollStep)
        requires
            old(self).wf(),
            old(self).uploader() matches Some(u) && i < u.queue().transfers.len(),
        ensures
            final(self).wf(),
            final(self).meshes() == old(self).meshes(),
            final(self).uploader() matches Some(v) && (v.queue(), step) == after_poll(
                old(self).uploader().unwrap().queue(),
                i as int,
                state,
            ) && v.next_id() == old(self).uploader().unwrap().next_id(),
    {
        let mut u = self.uploader.take().unwrap();
        let step = u.poll_transfer(i, state);
        self.uploader = Some(u);
        step
    }

    /// Routes the answers `rs` to uploads of buffer kind `kind`, in order, appending them to
    /// `out`.
    fn route_kind_exec(&mut self, rs: &Vec<BufferUploadResult>, kind: BufferKind, out: &mut Vec<(BufferKind, u64, usize, bool)>)
        requires
            result_ids(rs@).no_duplicates(),
        ensures
            final(out)@ == old(out)@ + route_kind(rs@, old(self).meshes.uploads(kind), kind),
            final(self).meshes.states() == apply_routed(
                old(self).meshes.states(),
                route_kind(rs@, old(self).meshes.uploads(kind), kind),
            ),
            final(self).meshes.uploads(kind) == old(self).meshes.uploads(kind).remove_keys(result_ids(rs@).to_set()),
            forall|k: BufferKind| k != kind ==> #[trigger] final(self).meshes.uploads(k) == old(self).meshes.uploads(k),
            final(self).uploader == old(self).uploader,
    {
        let ghost m0 = self.meshes.uploads(kind);
        let ghost s0 = self.meshes.states();
        let ghost out0 = out@;
        let mut j: usize = 0;
        proof {
            assert(rs@.take(0) =~= Seq::<BufferUploadResult>::empty());
            assert(result_ids(rs@.take(0)).to_set() =~= Set::<u64>::empty());
            assert(m0.remove_keys(Set::<u64>::empty()) =~= m0);
            assert(out@ =~= out0 + Seq::<(BufferKind, u64, usize, bool)>::empty());
        }
        while j < rs.len()
            invariant
                j <= rs@.len(),
                result_ids(rs@).no_duplicates(),
                m0 == old(self).meshes.uploads(kind),
                s0 == old(self).meshes.states(),
                out0 == old(out)@,
                out@ == out0 + route_kind(rs@.take(j as int), m0, kind),
                self.meshes.states() == apply_routed(s0, route_kind(rs@.take(j as int), m0, kind)),
                self.meshes.uploads(kind) == m0.remove_keys(result_ids(rs@.take(j as int)).to_set()),
                forall|k: BufferKind| k != kind ==> #[trigger] self.meshes.uploads(k) == old(self).meshes.uploads(k),
                self.uploader == old(self).uploader,
            decreases rs@.len() - j,
        {
            let r = rs[j];
            let id = match r {
                BufferUploadResult::UploadError(i) => i.id,
                BufferUploadResult::UploadComplete(i) => i.id,
                BufferUploadResult::UploadDrop(i) => i.id,
            };
            let ok = match r {
                BufferUploadResult::UploadComplete(_) => true,
                _ => false,
            };
            let ghost before = rs@.take(j as int);
            let ghost after = rs@.take(j + 1);
            proof {
                assert(after.drop_last() =~= before);
                assert(after.last() == r);
                assert(result_ids(before) =~= result_ids(rs@).take(j as int));
                assert(result_ids(rs@)[j as int] == id);
                assert(!result_ids(before).contains(id));
                assert(result_ids(after) =~= result_ids(before).push(id));
                lemma_push_set(result_ids(before), id);
            }
            match self.meshes.pending_mesh(kind, id) {
                Some(h) => {
                    let ghost prev = out@;
                    self.meshes.upload_result(kind, id, ok);
                    out.push((kind, id, h, ok));
                    proof {
                        assert(route_kind(after, m0, kind) == route_kind(before, m0, kind).push((kind, id, h, ok)));
                        assert(route_kind(after, m0, kind).drop_last() =~= route_kind(before, m0, kind));
                        assert(out0 + route_kind(after, m0, kind) =~= out@);
                        assert(self.meshes.uploads(kind) =~= m0.remove_keys(result_ids(after).to_set()));
                    }
                },
                None => {
                    proof {
                        assert(!m0.contains_key(id));
                        assert(route_kind(after, m0, kind) == route_kind(before, m0, kind));
                        assert(self.meshes.uploads(kind) =~= m0.remove_keys(result_ids(after).to_set()));
                    }
                },
            }
            j += 1;
        }
        proof {
            assert(rs@.take(rs@.len() as int) =~= rs@);
        }
    }

    /// Hands the uploader's answers to the meshes they belong to (see `routed_results`; every
    /// answer reaches one), returning them routed: each with its buffer kind, its upload, its
    /// mesh and whether the buffer arrived. Their uploads are no longer pending. With no
    /// uploader nothing happens.
    pub fn process_upload_results(&mut self) -> (r: Vec<(BufferKind, u64, usize, bool)>)
        requires
            old(self).wf(),
        ensures
            final(self).wf(),
            old(self).uploader() is None ==> r@.len() == 0 && *final(self) == *old(self),
            old(self).uploader() matches Some(u) ==> {
                let rs = u.queue().results;
                &&& r@ == routed_results(rs, old(self).meshes())
                &&& r@.len() == rs.len()
                &&& final(self).meshes().states() == apply_routed(old(self).meshes().states(), r@)
                &&& forall|k: BufferKind| #[trigger] final(self).meshes().uploads(k) == old(self).meshes().uploads(k).remove_keys(
                    result_ids(rs).to_set(),
                )
                &&& final(self).uploader() matches Some(v) && v.next_id() == u.next_id() && v.queue() == (QueueView {
                    results: Seq::empty(),
                    ..u.queue()
                })
            },
    {
        let mut u = match self.uploader.take() {
            None => {
                return Vec::new();
            },
            Some(u) => u,
        };
        let ghost u0 = u;
        let ghost m0 = self.meshes;
        let rs = u.take_results();
        proof {
            assert forall|x: u64| result_ids(rs@).to_multiset().count(x) <= 1 by {
                lemma_each_upload_once(&u0, x);
            }
            lemma_no_repeats(result_ids(rs@));
            assert forall|i: int| 0 <= i < rs@.len() implies pending_upload(m0, #[trigger] result_id(rs@[i])) by {
                assert(result_ids(rs@)[i] == result_id(rs@[i]));
                assert(result_ids(rs@).contains(result_id(rs@[i])));
                assert(u0.queue().answered().count(result_id(rs@[i])) > 0);
                assert(u0.queue().accounted().count(result_id(rs@[i])) > 0);
            }
            lemma_route_covers(rs@, m0);
        }
        let mut out: Vec<(BufferKind, u64, usize, bool)> = Vec::new();
        let ghost s0 = self.meshes.states();
        self.route_kind_exec(&rs, BufferKind::VertexFull, &mut out);
        let ghost s1 = self.meshes.states();
        let ghost o1 = out@;
        self.route_kind_exec(&rs, BufferKind::VertexPosition, &mut out);
        let ghost s2 = self.meshes.states();
        let ghost o2 = out@;
        self.route_kind_exec(&rs, BufferKind::Index, &mut out);
        proof {
            let a = route_kind(rs@, m0.uploads(BufferKind::VertexFull), BufferKind::VertexFull);
            let b = route_kind(rs@, m0.uploads(BufferKind::VertexPosition), BufferKind::VertexPosition);
            let c = route_kind(rs@, m0.uploads(BufferKind::Index), BufferKind::Index);
            assert(o1 =~= a);
            assert(o2 =~= a + b);
            assert(out@ =~= a + b + c);
            lemma_apply_routed_concat(s0, a, b);
            lemma_apply_routed_concat(s0, a + b, c);
        }
        self.uploader = Some(u);
        proof {
            let v = u;
            assert forall|id: u64|
                #![trigger v.queue().accounted().count(id)]
                #![trigger pending_upload(self.meshes, id)]
                v.queue().accounted().count(id) > 0 <==> pending_upload(self.meshes, id) by {
                lemma_each_upload_once(&u0, id);
                let q0 = u0.queue();
                assert(result_ids(Seq::<BufferUploadResult>::empty()) =~= Seq::<u64>::empty());
                assert(Seq::<u64>::empty().to_multiset().len() == 0);
                assert(v.queue().held() == q0.held());
                assert(v.queue().accounted().count(id) == q0.held().count(id));
                assert(q0.accounted().count(id) == q0.held().count(id) + q0.answered().count(id));
                assert(result_ids(rs@).to_set().contains(id) <==> result_ids(rs@).contains(id));
                assert(result_ids(rs@).contains(id) <==> q0.answered().count(id) > 0);
                assert(pending_upload(m0, id) <==> q0.accounted().count(id) > 0);
                assert(pending_upload(self.meshes, id) <==> (pending_upload(m0, id) && !result_ids(rs@).contains(id)));
            }
            assert forall|id: u64, a: BufferKind, b: BufferKind|
                a != b && #[trigger] self.meshes.uploads(a).contains_key(id) implies !#[trigger] self.meshes.uploads(
                    b,
                ).contains_key(id) by {
                assert(m0.uploads(a).contains_key(id));
            }
        }
        out
    }

    /// Registering the fresh uploads `ids` for mesh `h`, one per kind, keeps the manager well
    /// formed.
    proof fn lemma_fresh_registered(&self, old_meshes: DynMeshUploads, u0: BufferUploader, ids: (u64, u64, u64), h: usize)
        requires
            kinds_disjoint(old_meshes),
            u0.wf(),
            !u0.ids_wrapped(),
            u0.next_id() <= u64::MAX - 3,
            forall|id: u64|
                #![trigger u0.queue().accounted().count(id)]
                #![trigger pending_upload(old_meshes, id)]
                u0.queue().accounted().count(id) > 0 <==> pending_upload(old_meshes, id),
            ids == (u0.next_id(), (u0.next_id() + 1) as u64, (u0.next_id() + 2) as u64),
            self.meshes.uploads(BufferKind::VertexFull) == old_meshes.uploads(BufferKind::VertexFull).insert(ids.0, h),
            self.meshes.uploads(BufferKind::VertexPosition) == old_meshes.uploads(BufferKind::VertexPosition).insert(ids.1, h),
            self.meshes.uploads(BufferKind::Index) == old_meshes.uploads(BufferKind::Index).insert(ids.2, h),
            self.uploader matches Some(v) && v.wf() && !v.ids_wrapped() && v.queue().accounted()
                =~= u0.queue().accounted().insert(ids.0).insert(ids.1).insert(ids.2),
        ensures
            self.wf(),
    {
        let v = self.uploader.unwrap();
        assert forall|id: u64| id >= u0.next_id() implies !pending_upload(old_meshes, id) by {
            lemma_each_upload_once(&u0, id);
        }
        assert forall|id: u64|
            #![trigger v.queue().accounted().count(id)]
            #![trigger pending_upload(self.meshes, id)]
            v.queue().accounted().count(id) > 0 <==> pending_upload(self.meshes, id) by {
            if id != ids.0 && id != ids.1 && id != ids.2 {
                assert(pending_upload(self.meshes, id) == pending_upload(old_meshes, id));
            }
        }
        assert forall|id: u64, a: BufferKind, b: BufferKind|
            a != b && #[trigger] self.meshes.uploads(a).contains_key(id) implies !#[trigger] self.meshes.uploads(
                b,
            ).contains_key(id) by {
            if id == ids.0 || id == ids.1 || id == ids.2 {
                assert(!pending_upload(old_meshes, id));
            } else {
                assert(self.meshes.uploads(a).contains_key(id) == old_meshes.uploads(a).contains_key(id));
                assert(self.meshes.uploads(b).contains_key(id) == old_meshes.uploads(b).contains_key(id));
            }
        }
    }
}

} // verus!
