//! Bookkeeping of dynamic meshes whose vertex and index buffers are being uploaded to the
//! GPU: which uploads belong to which mesh, which buffers arrived, and which mesh to draw.

use crate::mesh_parts::MeshIndexType;
use std::collections::HashMap;
use vstd::prelude::*;
use vstd::std_specs::hash::group_hash_axioms;

verus! {

broadcast use group_hash_axioms;

/// The three buffers of a dynamic mesh.
#[derive(Debug, Clone, Copy, PartialEq, Eq, Structural)]
pub enum BufferKind {
    VertexFull,
    VertexPosition,
    Index,
}

/// Where a dynamic mesh's upload stands.
#[derive(Debug, Clone, Copy, PartialEq, Eq, Structural)]
pub enum MeshUploadState {
    /// Buffers are on their way; the flags tell which arrived. `previous` tells whether the
    /// mesh completed before this upload started, and is drawn meanwhile.
    Uploading { vertex_full: bool, vertex_position: bool, index: bool, previous: bool },
    /// All three buffers arrived.
    Completed,
    /// An upload failed or was dropped.
    UploadError,
}

/// Why mesh data cannot be uploaded.
#[derive(Debug, Clone, Copy, PartialEq, Eq, Structural)]
pub enum MeshDataError {
    /// A buffer is missing ("Dyn mesh data is not initialized").
    NotInitialized,
    /// A buffer is empty ("Dyn mesh data does not contain data").
    NoData,
}

/// Which mesh to draw for a handle.
#[derive(Debug, Clone, Copy, PartialEq, Eq, Structural)]
pub enum MeshToDraw {
    /// The mesh completed before the running upload.
    Previous,
    /// The mesh just completed.
    Current,
    /// Nothing.
    Nothing,
}

/// The check of mesh data before upload, given its buffers' lengths (`None` when absent):
/// all must be present, then all non-empty.
pub open spec fn mesh_data_check(vertex_full: Option<usize>, vertex_position: Option<usize>, index: Option<usize>) -> Result<(), MeshDataError> {
    match (vertex_full, vertex_position, index) {
        (Some(f), Some(p), Some(i)) => if f == 0 || p == 0 || i == 0 {
            Err(MeshDataError::NoData)
        } else {
            Ok(())
        },
        _ => Err(MeshDataError::NotInitialized),
    }
}

/// Checks the buffers of mesh data before upload (see `mesh_data_check`).
pub fn check_mesh_data(vertex_full: Option<usize>, vertex_position: Option<usize>, index: Option<usize>) -> (r: Result<(), MeshDataError>)
    ensures
        r == mesh_data_check(vertex_full, vertex_position, index),
{
    match (vertex_full, vertex_position, index) {
        (Some(f), Some(p), Some(i)) => {
            if f == 0 || p == 0 || i == 0 {
                Err(MeshDataError::NoData)
            } else {
                Ok(())
            }
        },
        _ => Err(MeshDataError::NotInitialized),
    }
}

/// The state after the buffer of `kind` arrived (`ok`) or failed: a flag set while
/// uploading, an error otherwise; a mesh whose three buffers arrived is completed.
pub open spec fn after_result(s: MeshUploadState, kind: BufferKind, ok: bool) -> MeshUploadState {
    let s1 = match s {
        MeshUploadState::Uploading { vertex_full, vertex_position, index, previous } => if ok {
            match kind {
                BufferKind::VertexFull => MeshUploadState::Uploading { vertex_full: true, vertex_position, index, previous },
                BufferKind::VertexPosition => MeshUploadState::Uploading { vertex_full, vertex_position: true, index, previous },
                BufferKind::Index => MeshUploadState::Uploading { vertex_full, vertex_position, index: true, previous },
            }
        } else {
            MeshUploadState::UploadError
        },
        _ => MeshUploadState::UploadError,
    };
    match s1 {
        MeshUploadState::Uploading { vertex_full: true, vertex_position: true, index: true, .. } => MeshUploadState::Completed,
        _ => s1,
    }
}

/// The mesh drawn in state `s`.
pub open spec fn drawn(s: MeshUploadState) -> MeshToDraw {
    match s {
        MeshUploadState::Uploading { previous, .. } => if previous { MeshToDraw::Previous } else { MeshToDraw::Nothing },
        MeshUploadState::Completed => MeshToDraw::Current,
        MeshUploadState::UploadError => MeshToDraw::Nothing,
    }
}

/// The upload state of every dynamic mesh (its handle is its position) and the mesh each
/// pending buffer upload belongs to.
pub struct DynMeshUploads {
    states: Vec<MeshUploadState>,
    vertex_full_uploads: HashMap<u64, usize>,
    vertex_position_uploads: HashMap<u64, usize>,
    index_uploads: HashMap<u64, usize>,
}

impl DynMeshUploads {
    /// The upload state of each mesh, by handle.
    pub closed spec fn states(&self) -> Seq<MeshUploadState> {
        self.states@
    }

    /// The pending uploads of buffers of `kind`: upload id to mesh handle.
    pub closed spec fn uploads(&self, kind: BufferKind) -> Map<u64, usize> {
        match kind {
            BufferKind::VertexFull => self.vertex_full_uploads@,
            BufferKind::VertexPosition => self.vertex_position_uploads@,
            BufferKind::Index => self.index_uploads@,
        }
    }

    #[verifier::type_invariant]
    spec fn wf(&self) -> bool {
        &&& forall|id: u64| #[trigger] self.vertex_full_uploads@.contains_key(id) ==> self.vertex_full_uploads@[id] < self.states@.len()
        &&& forall|id: u64| #[trigger] self.vertex_position_uploads@.contains_key(id) ==> self.vertex_position_uploads@[id] < self.states@.len()
        &&& forall|id: u64| #[trigger] self.index_uploads@.contains_key(id) ==> self.index_uploads@[id] < self.states@.len()
    }

    /// No mesh, no pending upload.
    pub fn new() -> (m: DynMeshUploads)
        ensures
            m.states().len() == 0,
            forall|k: BufferKind| #[trigger] m.uploads(k) == Map::<u64, usize>::empty(),
    {
        DynMeshUploads {
            states: Vec::new(),
            vertex_full_uploads: HashMap::new(),
            vertex_position_uploads: HashMap::new(),
            index_uploads: HashMap::new(),
        }
    }

    /// Registers the uploads `ids` (vertex-full, vertex-position, index) of mesh `handle`.
    fn register(&mut self, handle: usize, ids: (u64, u64, u64))
        requires
            handle < old(self).states().len(),
        ensures
            final(self).states() == old(self).states(),
            final(self).uploads(BufferKind::VertexFull) == old(self).uploads(BufferKind::VertexFull).insert(ids.0, handle),
            final(self).uploads(BufferKind::VertexPosition) == old(self).uploads(BufferKind::VertexPosition).insert(ids.1, handle),
            final(self).uploads(BufferKind::Index) == old(self).uploads(BufferKind::Index).insert(ids.2, handle),
    {
        proof {
            use_type_invariant(&*self);
        }
        let mut m = HashMap::new();
        std::mem::swap(&mut m, &mut self.vertex_full_uploads);
        m.insert(ids.0, handle);
        std::mem::swap(&mut m, &mut self.vertex_full_uploads);
        let mut m = HashMap::new();
        std::mem::swap(&mut m, &mut self.vertex_position_uploads);
        m.insert(ids.1, handle);
        std::mem::swap(&mut m, &mut self.vertex_position_uploads);
        let mut m = HashMap::new();
        std::mem::swap(&mut m, &mut self.index_uploads);
        m.insert(ids.2, handle);
        std::mem::swap(&mut m, &mut self.index_uploads);
    }

    /// A new mesh whose three buffers started uploading as `ids`; its handle is returned.
    pub fn add_dyn_mesh(&mut self, ids: (u64, u64, u64)) -> (h: usize)
        requires
            old(self).states().len() < usize::MAX,
        ensures
            h == old(self).states().len(),
            final(self).states() == old(self).states().push(
                MeshUploadState::Uploading { vertex_full: false, vertex_position: false, index: false, previous: false },
            ),
            final(self).uploads(BufferKind::VertexFull) == old(self).uploads(BufferKind::VertexFull).insert(ids.0, h),
            final(self).uploads(BufferKind::VertexPosition) == old(self).uploads(BufferKind::VertexPosition).insert(ids.1, h),
            final(self).uploads(BufferKind::Index) == old(self).uploads(BufferKind::Index).insert(ids.2, h),
    {
        proof {
            use_type_invariant(&*self);
        }
        let h = self.states.len();
        let mut states = self.states.clone();
        states.push(MeshUploadState::Uploading { vertex_full: false, vertex_position: false, index: false, previous: false });
        self.states = states;
        self.register(h, ids);
        h
    }

    /// New data for mesh `handle` started uploading as `ids`; a completed mesh stays drawn
    /// until the new one completes.
    pub fn update_dyn_mesh(&mut self, handle: usize, ids: (u64, u64, u64))
        requires
            handle < old(self).states().len(),
        ensures
            final(self).states() == old(self).states().update(
                handle as int,
                MeshUploadState::Uploading {
                    vertex_full: false,
                    vertex_position: false,
                    index: false,
                    previous: old(self).states()[handle as int] == MeshUploadState::Completed,
                },
            ),
            final(self).uploads(BufferKind::VertexFull) == old(self).uploads(BufferKind::VertexFull).insert(ids.0, handle),
            final(self).uploads(BufferKind::VertexPosition) == old(self).uploads(BufferKind::VertexPosition).insert(ids.1, handle),
            final(self).uploads(BufferKind::Index) == old(self).uploads(BufferKind::Index).insert(ids.2, handle),
    {
        proof {
            use_type_invariant(&*self);
        }
        let previous = self.states[handle] == MeshUploadState::Completed;
        let mut states = self.states.clone();
        states.set(handle, MeshUploadState::Uploading { vertex_full: false, vertex_position: false, index: false, previous });
        self.states = states;
        self.register(handle, ids);
    }

    /// The upload `id` of a buffer of `kind` arrived (`ok`) or failed or was dropped: the
    /// mesh it belongs to moves on (see `after_result`) and the upload is no longer pending.
    /// Returns the mesh's handle when this completed it.
    pub fn upload_result(&mut self, kind: BufferKind, id: u64, ok: bool) -> (finished: Option<usize>)
        requires
            old(self).uploads(kind).contains_key(id),
        ensures
            ({
                let h = old(self).uploads(kind)[id];
                let s = old(self).states()[h as int];
                let t = after_result(s, kind, ok);
                &&& final(self).states() == old(self).states().update(h as int, t)
                &&& final(self).uploads(kind) == old(self).uploads(kind).remove(id)
                &&& forall|k: BufferKind| k != kind ==> #[trigger] final(self).uploads(k) == old(self).uploads(k)
                &&& finished == if t == MeshUploadState::Completed && s != MeshUploadState::Completed {
                    Some(h)
                } else {
                    None
                }
            }),
    {
        proof {
            use_type_invariant(&*self);
        }
        let mut m = HashMap::new();
        match kind {
            BufferKind::VertexFull => std::mem::swap(&mut m, &mut self.vertex_full_uploads),
            BufferKind::VertexPosition => std::mem::swap(&mut m, &mut self.vertex_position_uploads),
            BufferKind::Index => std::mem::swap(&mut m, &mut self.index_uploads),
        }
        let h = match m.get(&id) {
            Some(h) => *h,
            None => 0,
        };
        m.remove(&id);
        match kind {
            BufferKind::VertexFull => std::mem::swap(&mut m, &mut self.vertex_full_uploads),
            BufferKind::VertexPosition => std::mem::swap(&mut m, &mut self.vertex_position_uploads),
            BufferKind::Index => std::mem::swap(&mut m, &mut self.index_uploads),
        }
        let s = self.states[h];
        let s1 = match s {
            MeshUploadState::Uploading { vertex_full, vertex_position, index, previous } => {
                if ok {
                    match kind {
                        BufferKind::VertexFull => MeshUploadState::Uploading { vertex_full: true, vertex_position, index, previous },
                        BufferKind::VertexPosition => MeshUploadState::Uploading { vertex_full, vertex_position: true, index, previous },
                        BufferKind::Index => MeshUploadState::Uploading { vertex_full, vertex_position, index: true, previous },
                    }
                } else {
                    MeshUploadState::UploadError
                }
            },
            _ => MeshUploadState::UploadError,
        };
        let t = match s1 {
            MeshUploadState::Uploading { vertex_full: true, vertex_position: true, index: true, .. } => MeshUploadState::Completed,
            _ => s1,
        };
        let mut states = self.states.clone();
        states.set(h, t);
        self.states = states;
        if t == MeshUploadState::Completed && s != MeshUploadState::Completed {
            Some(h)
        } else {
            None
        }
    }

    /// The mesh the pending upload `id` of a buffer of `kind` belongs to, if it is pending.
    pub fn pending_mesh(&self, kind: BufferKind, id: u64) -> (r: Option<usize>)
        ensures
            r == if self.uploads(kind).contains_key(id) {
                Some(self.uploads(kind)[id])
            } else {
                None
            },
    {
        let m = match kind {
            BufferKind::VertexFull => &self.vertex_full_uploads,
            BufferKind::VertexPosition => &self.vertex_position_uploads,
            BufferKind::Index => &self.index_uploads,
        };
        match m.get(&id) {
            Some(h) => Some(*h),
            None => None,
        }
    }

    /// Which mesh to draw for `handle` (see `drawn`).
    pub fn get_dyn_mesh(&self, handle: usize) -> (r: MeshToDraw)
        requires
            handle < self.states().len(),
        ensures
            r == drawn(self.states()[handle as int]),
    {
        match self.states[handle] {
            MeshUploadState::Uploading { previous, .. } => if previous { MeshToDraw::Previous } else { MeshToDraw::Nothing },
            MeshUploadState::Completed => MeshToDraw::Current,
            MeshUploadState::UploadError => MeshToDraw::Nothing,
        }
    }
}

/// A mesh completes exactly when its three buffers arrive, in any order, while nothing fails.
pub proof fn lemma_three_buffers_complete(previous: bool, a: BufferKind, b: BufferKind, c: BufferKind)
    requires
        a != b && b != c && a != c,
    ensures
        ({
            let s0 = MeshUploadState::Uploading { vertex_full: false, vertex_position: false, index: false, previous };
            let s1 = after_result(s0, a, true);
            let s2 = after_result(s1, b, true);
            &&& s1 != MeshUploadState::Completed
            &&& s2 != MeshUploadState::Completed
            &&& after_result(s2, c, true) == MeshUploadState::Completed
        }),
{
}

/// A failed upload leaves its mesh with nothing to draw, and later results cannot bring it back.
pub proof fn lemma_error_sticks(s: MeshUploadState, kind: BufferKind, later: BufferKind, ok: bool)
    ensures
        drawn(after_result(s, kind, false)) == MeshToDraw::Nothing,
        after_result(after_result(s, kind, false), later, ok) == MeshUploadState::UploadError,
{
}

/// The render phase a dynamic mesh part is asked to be drawn in.
#[derive(Debug, Clone, Copy, PartialEq, Eq, Structural)]
pub enum MeshRenderPhase {
    Opaque,
    Wireframe,
    /// A phase dynamic meshes are not drawn in.
    Other,
}

/// A part of a dynamic mesh: the material passes it is drawn with, and where its vertices
/// and indices lie in the mesh's buffers.
#[derive(Debug, Clone, Copy, PartialEq, Eq, Structural)]
pub struct DynMeshPart {
    /// The textured pass; its depth-writing variant follows it.
    pub textured_pass_index: usize,
    /// The untextured pass; its depth-writing variant follows it.
    pub untextured_pass_index: usize,
    pub wireframe_pass_index: usize,
    pub vertex_buffer_offset_in_bytes: u32,
    pub vertex_buffer_size_in_bytes: u32,
    pub index_buffer_offset_in_bytes: u32,
    pub index_buffer_size_in_bytes: u32,
    pub index_type: MeshIndexType,
}

impl DynMeshPart {
    /// The opaque pass for a view: untextured if the view asks for it, else textured; the
    /// depth-writing variant when the view has no depth prepass.
    pub open spec fn opaque_pass(self, depth_prepass_relevant: bool, untextured_relevant: bool) -> int {
        (if untextured_relevant {
            self.untextured_pass_index
        } else {
            self.textured_pass_index
        }) + if depth_prepass_relevant {
            0int
        } else {
            1int
        }
    }

    /// The material pass to draw the part with in `phase`, for a view that has a depth
    /// prepass or not and asks for untextured meshes or not: the opaque pass (see
    /// `opaque_pass`) in the opaque phase, the wireframe pass in the wireframe phase. No
    /// other phase draws dynamic meshes.
    pub fn get_material_pass_index(&self, phase: MeshRenderPhase, depth_prepass_relevant: bool, untextured_relevant: bool) -> (r: usize)
        requires
            phase != MeshRenderPhase::Other,
            phase == MeshRenderPhase::Opaque ==> self.opaque_pass(depth_prepass_relevant, untextured_relevant) <= usize::MAX,
        ensures
            phase == MeshRenderPhase::Opaque ==> r == self.opaque_pass(depth_prepass_relevant, untextured_relevant),
            phase == MeshRenderPhase::Wireframe ==> r == self.wireframe_pass_index,
    {
        match phase {
            MeshRenderPhase::Wireframe => self.wireframe_pass_index,
            _ => {
                let offset: usize = if depth_prepass_relevant {
                    0
                } else {
                    1
                };
                if untextured_relevant {
                    self.untextured_pass_index + offset
                } else {
                    self.textured_pass_index + offset
                }
            },
        }
    }
}

/// A mesh's handle in a `DynMeshCache`: its position when it was registered.
#[derive(Debug, Clone, Copy, PartialEq, Eq, Structural, Hash)]
pub struct DynMeshHandle(pub u32);

/// Meshes by handle, with the render object of each (the handle it was registered under).
pub struct DynMeshCache<M> {
    meshes: Vec<M>,
    render_objects: Vec<DynMeshHandle>,
}

impl<M> DynMeshCache<M> {
    /// The meshes, by position.
    pub closed spec fn meshes(&self) -> Seq<M> {
        self.meshes@
    }

    /// The render objects, by position.
    pub closed spec fn render_objects(&self) -> Seq<DynMeshHandle> {
        self.render_objects@
    }

    /// Each mesh has its render object.
    pub closed spec fn wf(&self) -> bool {
        self.meshes@.len() == self.render_objects@.len()
    }

    /// An empty cache.
    pub fn new() -> (c: DynMeshCache<M>)
        ensures
            c.wf(),
            c.meshes() == Seq::<M>::empty(),
            c.render_objects() == Seq::<DynMeshHandle>::empty(),
    {
        DynMeshCache { meshes: Vec::new(), render_objects: Vec::new() }
    }

    /// Adds `mesh` at the end; its handle is its position (as a `u32`), and a render object
    /// with that handle is added.
    pub fn register_dyn_mesh(&mut self, mesh: M) -> (h: DynMeshHandle)
        requires
            old(self).wf(),
        ensures
            final(self).wf(),
            h.0 == old(self).meshes().len() as u32,
            final(self).meshes() == old(self).meshes().push(mesh),
            final(self).render_objects() == old(self).render_objects().push(h),
    {
        let h = DynMeshHandle(self.meshes.len() as u32);
        self.meshes.push(mesh);
        self.render_objects.push(h);
        h
    }

    /// Replaces the mesh at `handle`.
    pub fn update_dyn_mesh(&mut self, handle: DynMeshHandle, mesh: M)
        requires
            old(self).wf(),
            handle.0 < old(self).meshes().len() as u32,
        ensures
            final(self).wf(),
            final(self).meshes() == old(self).meshes().update(handle.0 as int, mesh),
            final(self).render_objects() == old(self).render_objects(),
    {
        self.meshes.set(handle.0 as usize, mesh);
    }

    /// The mesh at `handle`.
    pub fn get_dyn_mesh(&self, handle: DynMeshHandle) -> (m: &M)
        requires
            handle.0 < self.meshes().len() as u32,
        ensures
            *m == self.meshes()[handle.0 as int],
    {
        &self.meshes[handle.0 as usize]
    }

    /// Removes the mesh at `handle` and the render object at the same position; the meshes
    /// after it move one place down, so their handles now name the next ones.
    pub fn free_dyn_mesh(&mut self, handle: DynMeshHandle)
        requires
            old(self).wf(),
            handle.0 < old(self).meshes().len() as u32,
        ensures
            final(self).wf(),
            final(self).meshes() == old(self).meshes().remove(handle.0 as int),
            final(self).render_objects() == old(self).render_objects().remove(handle.0 as int),
    {
        self.meshes.remove(handle.0 as usize);
        self.render_objects.remove(handle.0 as usize);
    }
}

} // verus!
