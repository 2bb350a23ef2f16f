//! The voxel terrain: material table, voxel codes, and the names of materials.

use crate::chunks::{
    building_chunks, key_ok, near_eye, lemma_mark_dirty_empty, lemma_mark_dirty_insert, lemma_mark_dirty_keeps_building,
    mark_dirty, ChunkTable, SuperChunkIndex, TerrainChunk,
};
use crate::tile::{
    codes_in_table, first_use_palette, in_local, local_at, text_views, tile_text, EnvTileAsset,
    EnvTileAssetData, EnvTileExporter,
};
use crate::voxels::{
    chunk_in_box, index_before, shift, storable_box, VoxelArray, chunk_min, chunk_mins_for_box, chunk_ok, in_box, in_span, in_world, pt, pts, span,
    world_box, TerrainVoxels, WORLD_HALF_SIDE,
};
use vstd::prelude::*;

verus! {

/// A terrain voxel: 0 is empty, `k > 0` is the `k`-th material of the terrain (1-based).
#[derive(Debug, Clone, Copy, PartialEq, Eq, Structural)]
pub struct TerrainVoxel(pub u16);

impl TerrainVoxel {
    /// The empty voxel.
    pub fn empty() -> (v: TerrainVoxel)
        ensures
            v.0 == 0,
    {
        TerrainVoxel(0)
    }

    /// The voxel with material code `material` (1-based, 0 for empty).
    pub fn from_material_index(material: u16) -> (v: TerrainVoxel)
        ensures
            v.0 == material,
    {
        TerrainVoxel(material)
    }

    /// Whether the voxel is empty.
    pub fn is_empty(&self) -> (b: bool)
        ensures
            b == (self.0 == 0),
    {
        self.0 == 0
    }

    /// The value greedy meshing merges voxels by: their material code.
    pub fn voxel_merge_value(&self) -> (v: u16)
        ensures
            v == self.0,
    {
        self.0
    }
}

/// The last position at which `name` occurs in `names`, if any.
pub open spec fn last_index_of(names: Seq<Seq<char>>, name: Seq<char>) -> Option<int>
    decreases names.len(),
{
    if names.len() == 0 {
        None
    } else if names.last() == name {
        Some(names.len() - 1)
    } else {
        last_index_of(names.drop_last(), name)
    }
}

/// The code `voxel_by_material` gives a name names that same material: looking a material up
/// by name and the name up by the voxel gives the name back.
pub proof fn lemma_material_round_trip(names: Seq<Seq<char>>, n: Seq<char>)
    ensures
        last_index_of(names, n) matches Some(i) ==> 0 <= i < names.len() && names[i] == n,
        last_index_of(names, n) is None ==> !names.contains(n),
    decreases names.len(),
{
    if names.len() > 0 {
        lemma_material_round_trip(names.drop_last(), n);
        if last_index_of(names, n) is None {
            assert forall|j: int| 0 <= j < names.len() implies names[j] != n by {
                if j < names.len() - 1 {
                    assert(names.drop_last()[j] == names[j]);
                }
            }
        }
    }
}

/// The character sequences of a list of strings.
pub open spec fn string_views(v: Seq<String>) -> Seq<Seq<char>> {
    v.map_values(|s: String| s@)
}

/// The materials of a terrain, in order; voxel code `k` stands for the `k`-th.
pub struct MaterialTable {
    names: Vec<String>,
}

impl MaterialTable {
    /// The material names, in order.
    pub closed spec fn names(&self) -> Seq<Seq<char>> {
        string_views(self.names@)
    }

    #[verifier::type_invariant]
    spec fn wf(&self) -> bool {
        self.names@.len() <= 65535
    }

    /// A table of the given materials. Voxel codes are 16-bit, so at most 65535 materials fit.
    pub fn new(names: Vec<String>) -> (t: MaterialTable)
        requires
            names@.len() <= 65535,
        ensures
            t.names() == string_views(names@),
    {
        MaterialTable { names }
    }

    /// The number of materials.
    pub fn len(&self) -> (n: usize)
        ensures
            n == self.names().len(),
            n <= 65535,
    {
        proof {
            use_type_invariant(self);
        }
        self.names.len()
    }

    /// The voxel of the material called `material_name`: the code of its last occurrence in
    /// the table (later entries of a name override earlier ones), or `None` if it is absent.
    pub fn voxel_by_material(&self, material_name: &str) -> (v: Option<TerrainVoxel>)
        ensures
            match last_index_of(self.names(), material_name@) {
                Some(i) => v == Some(TerrainVoxel((i + 1) as u16)),
                None => v is None,
            },
    {
        proof {
            use_type_invariant(self);
        }
        let key = material_name.to_owned();
        let mut i = self.names.len();
        assert(self.names().take(i as int) =~= self.names());
        while i > 0
            invariant
                i <= self.names@.len() <= 65535,
                key@ == material_name@,
                last_index_of(self.names(), material_name@) == last_index_of(self.names().take(i as int), material_name@),
            decreases i,
        {
            proof {
                assert(self.names().take(i as int).drop_last() =~= self.names().take(i - 1));
                assert(self.names().take(i as int).last() == self.names@[i - 1]@);
            }
            if self.names[i - 1] == key {
                return Some(TerrainVoxel(i as u16));
            }
            i = i - 1;
        }
        None
    }

    /// The name of a voxel's material, or the empty string for the empty voxel.
    pub fn material_name_by_voxel(&self, voxel: &TerrainVoxel) -> (name: String)
        requires
            voxel.0 <= self.names().len(),
        ensures
            voxel.0 == 0 ==> name@ == Seq::<char>::empty(),
            voxel.0 != 0 ==> name@ == self.names()[voxel.0 - 1],
    {
        if voxel.is_empty() {
            String::new()
        } else {
            self.names[(voxel.0 - 1) as usize].clone()
        }
    }
}

/// The terrain materials every new terrain starts with, in order.
pub fn get_default_material_names() -> (names: Vec<&'static str>)
    ensures
        names@.len() == 10,
        names@[0]@ == "flat_red"@,
        names@[1]@ == "flat_green"@,
        names@[2]@ == "flat_blue"@,
        names@[3]@ == "blue_metal"@,
        names@[4]@ == "old_bronze"@,
        names@[5]@ == "basic_tile"@,
        names@[6]@ == "round_tile"@,
        names@[7]@ == "diamond_inlay_tile"@,
        names@[8]@ == "black_plastic"@,
        names@[9]@ == "curly_tile"@,
{
    vec![
        "flat_red",
        "flat_green",
        "flat_blue",
        "blue_metal",
        "old_bronze",
        "basic_tile",
        "round_tile",
        "diamond_inlay_tile",
        "black_plastic",
        "curly_tile",
    ]
}

} // verus!

verus! {

/// Whether the list of names has no repeated entry.
pub open spec fn distinct_names(v: Seq<Seq<char>>) -> bool {
    v.no_duplicates()
}

/// A pending request to add a chunk's mesh: its id and the chunk.
pub type MeshRequest = (usize, (i32, i32, i32));

/// The chunk that request `id` was made for, if it is pending.
pub open spec fn request_key(reqs: Seq<MeshRequest>, id: int) -> Option<(int, int, int)>
    decreases reqs.len(),
{
    if reqs.len() == 0 {
        None
    } else if reqs.last().0 == id {
        Some(pt(reqs.last().1))
    } else {
        request_key(reqs.drop_last(), id)
    }
}

/// A voxel terrain: its materials, its voxels, and the bookkeeping of its render chunks
/// (which need a new mesh, which have a mesh job running, which mesh each is drawn with).
pub struct Terrain {
    materials: MaterialTable,
    voxels: TerrainVoxels,
    initialized: bool,
    active_builders: usize,
    chunks: ChunkTable,
    super_chunks: SuperChunkIndex,
    add_requests: Vec<MeshRequest>,
    current_add_request: usize,
}

/// Mesh jobs allowed to run at once once the terrain is initialized.
pub const MAX_RENDER_CHUNK_JOBS: usize = 16;

/// Mesh jobs started per frame once the terrain is initialized.
pub const MAX_NEW_RENDER_CHUNK_JOBS_PER_FRAME: usize = 4;

/// Mesh jobs started by the first batch.
pub const MAX_RENDER_CHUNK_JOBS_INIT: usize = 65536;

impl Terrain {
    /// The terrain's material names, in order.
    pub closed spec fn material_names(&self) -> Seq<Seq<char>> {
        self.materials.names()
    }

    /// The terrain's voxels.
    pub closed spec fn voxels(&self) -> TerrainVoxels {
        self.voxels
    }

    /// The state of each render chunk the terrain tracks.
    pub closed spec fn chunk_states(&self) -> Map<(int, int, int), TerrainChunk> {
        self.chunks@
    }

    /// The chunks the mesh scheduler considers (filed under their super chunks).
    pub closed spec fn listed(&self) -> Set<(int, int, int)> {
        self.super_chunks.listed()
    }

    /// Whether a first batch of mesh jobs was started.
    pub closed spec fn is_initialized(&self) -> bool {
        self.initialized
    }

    /// The count of mesh jobs believed running.
    pub closed spec fn builders(&self) -> nat {
        self.active_builders as nat
    }

    /// The pending requests to add a chunk's mesh.
    pub closed spec fn requests(&self) -> Seq<MeshRequest> {
        self.add_requests@
    }

    /// The id of the last mesh-add request made.
    pub closed spec fn request_counter(&self) -> nat {
        self.current_add_request as nat
    }

    #[verifier::type_invariant]
    spec fn wf(&self) -> bool {
        &&& forall|k: (int, int, int)| #[trigger] self.chunks@.dom().contains(k) ==> key_ok(k)
        &&& forall|k: (int, int, int)| #[trigger] self.super_chunks.listed().contains(k) ==> self.chunks@.dom().contains(k)
        &&& !self.initialized ==> self.active_builders == 0
        &&& self.active_builders <= MAX_RENDER_CHUNK_JOBS_INIT
        &&& forall|i: int| 0 <= i < self.add_requests@.len() ==> #[trigger] self.add_requests@[i].0 <= self.current_add_request
            && key_ok(pt(self.add_requests@[i].1))
        &&& forall|i: int, j: int| 0 <= i < j < self.add_requests@.len() ==> #[trigger] self.add_requests@[i].0 < #[trigger] self.add_requests@[j].0
    }

    /// Count of mesh jobs believed running.
    pub fn active_builders(&self) -> (n: usize)
        ensures
            n == self.builders(),
    {
        self.active_builders
    }

    /// The state of render chunk `key`, if the terrain tracks it.
    pub fn chunk(&self, key: (i32, i32, i32)) -> (c: Option<TerrainChunk>)
        ensures
            c == if self.chunk_states().dom().contains(pt(key)) { Some(self.chunk_states()[pt(key)]) } else { None },
    {
        self.chunks.get(key)
    }

    /// The voxel at `p`.
    pub fn voxel(&self, p: (i32, i32, i32)) -> (v: TerrainVoxel)
        ensures
            v.0 == self.voxels().voxel(pt(p)),
    {
        TerrainVoxel(self.voxels.get(p))
    }

    /// The voxel of the material called `material_name`: the code of its last occurrence in
    /// the material list, or `None` if it is absent. Voxel codes are 16-bit: the terrain has
    /// at most 65535 materials, so the code is the position plus one.
    pub fn voxel_by_material(&self, material_name: &str) -> (v: Option<TerrainVoxel>)
        ensures
            self.material_names().len() <= 65535,
            match last_index_of(self.material_names(), material_name@) {
                Some(i) => 0 <= i < self.material_names().len() && v == Some(TerrainVoxel((i + 1) as u16)) && (
                v->Some_0).0 == i + 1 && self.material_names()[i] == material_name@,
                None => v is None,
            },
    {
        proof {
            use_type_invariant(&self.materials);
            lemma_material_round_trip(self.material_names(), material_name@);
        }
        self.materials.voxel_by_material(material_name)
    }

    /// The name of a voxel's material, or the empty string for the empty voxel.
    pub fn material_name_by_voxel(&self, voxel: &TerrainVoxel) -> (name: String)
        requires
            voxel.0 <= self.material_names().len(),
        ensures
            voxel.0 == 0 ==> name@ == Seq::<char>::empty(),
            voxel.0 != 0 ==> name@ == self.material_names()[voxel.0 - 1],
    {
        self.materials.material_name_by_voxel(voxel)
    }

    /// Marks chunk `key` as needing a new mesh, tracking it if it was not, and files it under
    /// its super chunk.
    fn set_chunk_dirty(&mut self, key: (i32, i32, i32))
        requires
            key_ok(pt(key)),
        ensures
            final(self).chunk_states() == mark_dirty(old(self).chunk_states(), set![pt(key)]),
            final(self).listed() == old(self).listed().insert(pt(key)),
            final(self).voxels() == old(self).voxels(),
            final(self).material_names() == old(self).material_names(),
            final(self).is_initialized() == old(self).is_initialized(),
            final(self).builders() == old(self).builders(),
            final(self).requests() == old(self).requests(),
            final(self).request_counter() == old(self).request_counter(),
    {
        proof {
            use_type_invariant(&*self);
        }
        let ghost old_states = self.chunks@;
        let mut chunk = match self.chunks.get(key) {
            Some(c) => c,
            None => TerrainChunk::new(),
        };
        chunk.dirty = true;
        let mut super_chunks = SuperChunkIndex::new();
        std::mem::swap(&mut super_chunks, &mut self.super_chunks);
        super_chunks.insert(key);
        let mut chunks = ChunkTable::new();
        std::mem::swap(&mut chunks, &mut self.chunks);
        chunks.set(key, chunk);
        proof {
            assert(chunks@ =~= mark_dirty(old_states, set![pt(key)]));
        }
        self.chunks = chunks;
        self.super_chunks = super_chunks;
    }
}


/// Whether the count of mesh jobs believed running is the number of tracked chunks marked as
/// having a job running.
pub open spec fn jobs_counted(t: Terrain) -> bool {
    &&& building_chunks(t.chunk_states()).finite()
    &&& t.builders() == building_chunks(t.chunk_states()).len()
}

/// A change of chunk states that marks chunks dirty keeps the running-job count right.
proof fn lemma_dirty_keeps_count(a: Terrain, b: Terrain, keys: Set<(int, int, int)>)
    requires
        b.chunk_states() == mark_dirty(a.chunk_states(), keys),
        b.builders() == a.builders(),
    ensures
        jobs_counted(a) ==> jobs_counted(b),
{
    lemma_mark_dirty_keeps_building(a.chunk_states(), keys);
}

/// A terrain whose chunks are all fresh and with no job believed running counts its jobs
/// right.
proof fn lemma_fresh_count(t: Terrain, keys: Set<(int, int, int)>)
    requires
        t.chunk_states() == mark_dirty(Map::empty(), keys),
        t.builders() == 0,
    ensures
        jobs_counted(t),
{
    lemma_mark_dirty_keeps_building(Map::empty(), keys);
    assert(building_chunks(Map::empty()) =~= Set::<(int, int, int)>::empty());
}

/// The set of points in a list of `i32` triples.
pub open spec fn point_set(s: Seq<(i32, i32, i32)>) -> Set<(int, int, int)> {
    Set::new(|k: (int, int, int)| pts(s).contains(k))
}

/// The chunks whose meshes a change of the voxel at `p` may alter: those the chunk indexer
/// lists for the 3x3x3 box around `p`.
pub open spec fn chunks_around(p: (int, int, int)) -> Set<(int, int, int)> {
    span((p.0 - 1, p.1 - 1, p.2 - 1), (3, 3, 3))
}

impl Terrain {
    /// Marks every chunk of `keys` as needing a new mesh (see `set_chunk_dirty`).
    fn set_chunks_dirty(&mut self, keys: &Vec<(i32, i32, i32)>)
        requires
            forall|k: (int, int, int)| #[trigger] pts(keys@).contains(k) ==> key_ok(k),
        ensures
            final(self).chunk_states() == mark_dirty(old(self).chunk_states(), point_set(keys@)),
            final(self).listed() == old(self).listed() + point_set(keys@),
            final(self).voxels() == old(self).voxels(),
            final(self).material_names() == old(self).material_names(),
            final(self).is_initialized() == old(self).is_initialized(),
            final(self).builders() == old(self).builders(),
            final(self).requests() == old(self).requests(),
            final(self).request_counter() == old(self).request_counter(),
    {
        let ghost s0 = self.chunk_states();
        let ghost l0 = self.listed();
        proof {
            lemma_mark_dirty_empty(s0);
            assert(point_set(keys@.take(0)) =~= Set::<(int, int, int)>::empty());
            assert(l0 + Set::<(int, int, int)>::empty() =~= l0);
        }
        let mut i: usize = 0;
        while i < keys.len()
            invariant
                i <= keys@.len(),
                forall|k: (int, int, int)| #[trigger] pts(keys@).contains(k) ==> key_ok(k),
                self.chunk_states() == mark_dirty(s0, point_set(keys@.take(i as int))),
                self.listed() == l0 + point_set(keys@.take(i as int)),
                self.voxels() == old(self).voxels(),
                self.material_names() == old(self).material_names(),
                self.is_initialized() == old(self).is_initialized(),
                self.builders() == old(self).builders(),
                self.requests() == old(self).requests(),
                self.request_counter() == old(self).request_counter(),
            decreases keys@.len() - i,
        {
            let k = keys[i];
            proof {
                assert(pts(keys@)[i as int] == pt(k));
                assert(pts(keys@).contains(pt(k)));
                let a = point_set(keys@.take(i as int));
                let b = point_set(keys@.take(i as int + 1));
                assert(b =~= a.insert(pt(k))) by {
                    assert(pts(keys@.take(i as int + 1)) =~= pts(keys@.take(i as int)).push(pt(k)));
                    assert forall|x: (int, int, int)| b.contains(x) <==> a.contains(x) || x == pt(k) by {
                        let t0 = pts(keys@.take(i as int));
                        let t1 = pts(keys@.take(i as int + 1));
                        if t1.contains(x) && x != pt(k) {
                            let j = choose|j: int| 0 <= j < t1.len() && t1[j] == x;
                            assert(t0[j] == x);
                        }
                        if t0.contains(x) {
                            let j = choose|j: int| 0 <= j < t0.len() && t0[j] == x;
                            assert(t1[j] == x);
                        }
                        if x == pt(k) {
                            assert(t1[i as int] == x);
                        }
                    }
                }
                lemma_mark_dirty_insert(s0, a, pt(k));
                assert(l0 + a.insert(pt(k)) =~= (l0 + a).insert(pt(k)));
            }
            self.set_chunk_dirty(k);
            i = i + 1;
        }
        proof {
            assert(keys@.take(keys@.len() as int) =~= keys@);
        }
    }

    /// Overwrites the voxel at `point` and marks the chunks around it as needing new meshes.
    pub fn update_voxel(&mut self, point: (i32, i32, i32), voxel: TerrainVoxel)
        requires
            in_world(pt(point)),
        ensures
            forall|q: (int, int, int)| #[trigger] final(self).voxels().voxel(q)
                == if q == pt(point) { voxel.0 } else { old(self).voxels().voxel(q) },
            final(self).voxels().chunks() == old(self).voxels().chunks().insert(chunk_min(pt(point))),
            final(self).chunk_states() == mark_dirty(old(self).chunk_states(), chunks_around(pt(point))),
            final(self).listed() == old(self).listed() + chunks_around(pt(point)),
            final(self).material_names() == old(self).material_names(),
            final(self).is_initialized() == old(self).is_initialized(),
            final(self).builders() == old(self).builders(),
            final(self).requests() == old(self).requests(),
            final(self).request_counter() == old(self).request_counter(),
            jobs_counted(*old(self)) ==> jobs_counted(*final(self)),
    {
        proof {
            use_type_invariant(&*self);
        }
        let ghost t0 = *self;
        let mut voxels = TerrainVoxels::new();
        std::mem::swap(&mut voxels, &mut self.voxels);
        voxels.set(point, voxel.0);
        std::mem::swap(&mut voxels, &mut self.voxels);
        let keys = chunk_mins_for_box((point.0 - 1, point.1 - 1, point.2 - 1), (3, 3, 3));
        proof {
            assert forall|k: (int, int, int)| #[trigger] pts(keys@).contains(k) implies key_ok(k) by {
                let q = pt(point);
                assert(in_span((q.0 - 1, q.1 - 1, q.2 - 1), (3, 3, 3), k));
            }
            assert(point_set(keys@) =~= chunks_around(pt(point)));
        }
        self.set_chunks_dirty(&keys);
        proof {
            lemma_dirty_keeps_count(t0, *self, chunks_around(pt(point)));
        }
    }

    /// Empties the voxel at `point` (see `update_voxel`).
    pub fn clear_voxel(&mut self, point: (i32, i32, i32))
        requires
            in_world(pt(point)),
        ensures
            forall|q: (int, int, int)| #[trigger] final(self).voxels().voxel(q)
                == if q == pt(point) { 0 } else { old(self).voxels().voxel(q) },
            final(self).voxels().chunks() == old(self).voxels().chunks().insert(chunk_min(pt(point))),
            final(self).chunk_states() == mark_dirty(old(self).chunk_states(), chunks_around(pt(point))),
            final(self).listed() == old(self).listed() + chunks_around(pt(point)),
            final(self).material_names() == old(self).material_names(),
            final(self).is_initialized() == old(self).is_initialized(),
            final(self).builders() == old(self).builders(),
            final(self).requests() == old(self).requests(),
            final(self).request_counter() == old(self).request_counter(),
            jobs_counted(*old(self)) ==> jobs_counted(*final(self)),
    {
        self.update_voxel(point, TerrainVoxel::empty());
    }
}


/// How a new terrain's voxels are laid out on its square base.
pub enum TerrainFillStyle {
    /// One layer of one material.
    FlatBoard { material: String },
    /// One layer alternating between two materials, `zero` where x + y is even.
    CheckersBoard { zero: String, one: String },
    /// Columns eight voxels deep ending below the height given for each column, row by row
    /// (y, then x) over the base; the heights come from a noise function.
    PerlinNoise { heights: Vec<i32>, material: String },
}

/// The least point of the base of a terrain of side `size` around `origin`.
pub open spec fn base_min(origin: (int, int, int), size: int) -> (int, int, int) {
    (origin.0 - size / 2, origin.1 - size / 2, origin.2 - 1)
}

/// The shape of the base of a terrain of side `size`.
pub open spec fn base_shape(size: int) -> (int, int, int) {
    (size, size, 1)
}

/// The voxel code of the material called `n` (its last occurrence, 1-based).
pub open spec fn material_code(names: Seq<Seq<char>>, n: Seq<char>) -> u16 {
    match last_index_of(names, n) {
        Some(i) => (i + 1) as u16,
        None => 0,
    }
}

/// Whether column `(x, y)` lies on the base of a terrain of side `size`.
pub open spec fn on_base(bmin: (int, int, int), size: int, x: int, y: int) -> bool {
    bmin.0 <= x < bmin.0 + size && bmin.1 <= y < bmin.1 + size
}

/// The height given for column `(x, y)`.
pub open spec fn column_height(heights: Seq<i32>, bmin: (int, int, int), size: int, x: int, y: int) -> int {
    heights[(y - bmin.1) * size + (x - bmin.0)] as int
}

/// The voxel at `p` of a newly generated terrain.
pub open spec fn generated_voxel(
    names: Seq<Seq<char>>,
    origin: (int, int, int),
    size: int,
    style: TerrainFillStyle,
    p: (int, int, int),
) -> u16 {
    let bmin = base_min(origin, size);
    match style {
        TerrainFillStyle::FlatBoard { material } => if in_box(bmin, base_shape(size), p) {
            material_code(names, material@)
        } else {
            0
        },
        TerrainFillStyle::CheckersBoard { zero, one } => if in_box(bmin, base_shape(size), p) {
            if (p.0 + p.1) % 2 == 0 {
                material_code(names, zero@)
            } else {
                material_code(names, one@)
            }
        } else {
            0
        },
        TerrainFillStyle::PerlinNoise { heights, material } => if on_base(bmin, size, p.0, p.1)
            && column_height(heights@, bmin, size, p.0, p.1) - 8 <= p.2 < column_height(heights@, bmin, size, p.0, p.1) {
            material_code(names, material@)
        } else {
            0
        },
    }
}

/// The chunks a newly generated terrain holds.
pub open spec fn generated_chunks(origin: (int, int, int), size: int, style: TerrainFillStyle) -> Set<(int, int, int)> {
    let bmin = base_min(origin, size);
    match style {
        TerrainFillStyle::FlatBoard { .. } => span(bmin, base_shape(size)),
        TerrainFillStyle::CheckersBoard { .. } => Set::new(
            |c: (int, int, int)| exists|p: (int, int, int)| in_box(bmin, base_shape(size), p) && #[trigger] chunk_min(p) == c,
        ),
        TerrainFillStyle::PerlinNoise { heights, .. } => Set::new(
            |c: (int, int, int)| exists|x: int, y: int| on_base(bmin, size, x, y)
                && #[trigger] in_span((x, y, column_height(heights@, bmin, size, x, y) - 8), (1, 1, 8), c),
        ),
    }
}

/// Whether a terrain of side `size` around `origin` in `style` can be generated: its base and
/// its columns lie in the world and its materials are in the table.
pub open spec fn fill_style_ok(names: Seq<Seq<char>>, origin: (int, int, int), size: int, style: TerrainFillStyle) -> bool {
    let bmin = base_min(origin, size);
    &&& 0 <= size <= i32::MAX
    &&& world_box(bmin, base_shape(size))
    &&& match style {
        TerrainFillStyle::FlatBoard { material } => last_index_of(names, material@) is Some,
        TerrainFillStyle::CheckersBoard { zero, one } => last_index_of(names, zero@) is Some
            && last_index_of(names, one@) is Some,
        TerrainFillStyle::PerlinNoise { heights, material } => {
            &&& last_index_of(names, material@) is Some
            &&& heights@.len() == size * size
            &&& forall|i: int| 0 <= i < heights@.len() ==> -WORLD_HALF_SIDE + 8 <= #[trigger] heights@[i] <= WORLD_HALF_SIDE
        },
    }
}

/// Whether `a + b` is even, computed from the remainders of `a` and `b` as Rust gives them.
fn sum_is_even(a: i32, b: i32) -> (r: bool)
    ensures
        r == ((a + b) % 2 == 0),
{
    let pa = a % 2;
    let pb = b % 2;
    (pa + pb) % 2 == 0
}


/// The code of a material known to be in the table.
fn code_of(materials: &MaterialTable, name: &String) -> (v: u16)
    requires
        last_index_of(materials.names(), name@) is Some,
    ensures
        v == material_code(materials.names(), name@),
{
    match materials.voxel_by_material(name.as_str()) {
        Some(v) => v.0,
        None => 0,
    }
}

proof fn lemma_unit_span(p: (int, int, int))
    ensures
        span(p, (1, 1, 1)) == set![chunk_min(p)],
{
    assert forall|c: (int, int, int)| #[trigger] span(p, (1, 1, 1)).contains(c) <==> c == chunk_min(p) by {
        if c == chunk_min(p) {
            assert((p.0 / 16 * 16) % 16 == 0 && (p.0 / 16 * 16) / 16 == p.0 / 16) by (nonlinear_arith);
            assert((p.1 / 16 * 16) % 16 == 0 && (p.1 / 16 * 16) / 16 == p.1 / 16) by (nonlinear_arith);
            assert((p.2 / 16 * 16) % 16 == 0 && (p.2 / 16 * 16) / 16 == p.2 / 16) by (nonlinear_arith);
        }
        if span(p, (1, 1, 1)).contains(c) {
            assert(c.0 == 16 * (c.0 / 16) + c.0 % 16);
            assert(c.1 == 16 * (c.1 / 16) + c.1 % 16);
            assert(c.2 == 16 * (c.2 / 16) + c.2 % 16);
        }
    }
    assert(span(p, (1, 1, 1)) =~= set![chunk_min(p)]);
}

impl Terrain {
    /// The voxels of a new terrain of side `size` around `origin`, laid out in `style`, with
    /// material codes taken from `materials`.
    pub fn generate_voxels(materials: &MaterialTable, origin: (i32, i32, i32), size: u32, style: &TerrainFillStyle) -> (t: TerrainVoxels)
        requires
            fill_style_ok(materials.names(), pt(origin), size as int, *style),
        ensures
            forall|p: (int, int, int)| #[trigger] t.voxel(p) == generated_voxel(materials.names(), pt(origin), size as int, *style, p),
            t.chunks() == generated_chunks(pt(origin), size as int, *style),
    {
        let ghost names = materials.names();
        let ghost o = pt(origin);
        let ghost sz = size as int;
        let mut voxels = TerrainVoxels::new();
        let size = size as i32;
        let bmin = (origin.0 - size / 2, origin.1 - size / 2, origin.2 - 1);
        assert(pt(bmin) == base_min(o, sz));
        match style {
            TerrainFillStyle::FlatBoard { material } => {
                let v = code_of(materials, material);
                voxels.fill_box(bmin, (size, size, 1), v);
                proof {
                    assert(voxels.chunks() =~= generated_chunks(o, sz, *style));
                }
            },
            TerrainFillStyle::CheckersBoard { zero, one } => {
                let vz = code_of(materials, zero);
                let vo = code_of(materials, one);
                let mut y: i32 = 0;
                while y < size
                    invariant
                        0 <= y <= size,
                        size == sz,
                        pt(bmin) == base_min(o, sz),
                        world_box(pt(bmin), base_shape(sz)),
                        *style == (TerrainFillStyle::CheckersBoard { zero: *zero, one: *one }),
                        vz == material_code(names, zero@),
                        vo == material_code(names, one@),
                        forall|q: (int, int, int)| #[trigger] voxels.voxel(q) == if in_box(pt(bmin), base_shape(sz), q) && q.1 < bmin.1 + y {
                            generated_voxel(names, o, sz, *style, q)
                        } else {
                            0
                        },
                        voxels.chunks() == Set::new(|c: (int, int, int)| exists|p: (int, int, int)|
                            in_box(pt(bmin), base_shape(sz), p) && p.1 < bmin.1 + y && #[trigger] chunk_min(p) == c),
                    decreases size - y,
                {
                    let mut x: i32 = 0;
                    while x < size
                        invariant
                            0 <= y < size,
                            0 <= x <= size,
                            size == sz,
                            pt(bmin) == base_min(o, sz),
                            world_box(pt(bmin), base_shape(sz)),
                            *style == (TerrainFillStyle::CheckersBoard { zero: *zero, one: *one }),
                            vz == material_code(names, zero@),
                            vo == material_code(names, one@),
                            forall|q: (int, int, int)| #[trigger] voxels.voxel(q) == if in_box(pt(bmin), base_shape(sz), q)
                                && (q.1 < bmin.1 + y || (q.1 == bmin.1 + y && q.0 < bmin.0 + x)) {
                                generated_voxel(names, o, sz, *style, q)
                            } else {
                                0
                            },
                            voxels.chunks() == Set::new(|c: (int, int, int)| exists|p: (int, int, int)|
                                in_box(pt(bmin), base_shape(sz), p) && (p.1 < bmin.1 + y || (p.1 == bmin.1 + y && p.0 < bmin.0 + x))
                                && #[trigger] chunk_min(p) == c),
                        decreases size - x,
                    {
                        let p = (bmin.0 + x, bmin.1 + y, bmin.2);
                        let v = if sum_is_even(p.0, p.1) { vz } else { vo };
                        let ghost before = voxels.chunks();
                        voxels.fill_box(p, (1, 1, 1), v);
                        proof {
                            lemma_unit_span(pt(p));
                            let after = Set::new(|c: (int, int, int)| exists|q: (int, int, int)|
                                in_box(pt(bmin), base_shape(sz), q) && (q.1 < bmin.1 + y || (q.1 == bmin.1 + y && q.0 < bmin.0 + x + 1))
                                && #[trigger] chunk_min(q) == c);
                            assert forall|c: (int, int, int)| #[trigger] voxels.chunks().contains(c) <==> after.contains(c) by {
                                if c == chunk_min(pt(p)) {
                                    assert(in_box(pt(bmin), base_shape(sz), pt(p)));
                                }
                                if after.contains(c) {
                                    let q = choose|q: (int, int, int)| in_box(pt(bmin), base_shape(sz), q)
                                        && (q.1 < bmin.1 + y || (q.1 == bmin.1 + y && q.0 < bmin.0 + x + 1)) && #[trigger] chunk_min(q) == c;
                                    if !(q.1 == bmin.1 + y && q.0 == bmin.0 + x) {
                                        assert(before.contains(c));
                                    } else {
                                        assert(q == pt(p));
                                    }
                                }
                            }
                            assert(voxels.chunks() =~= after);
                        }
                        x = x + 1;
                    }
                    proof {
                        let next = Set::new(|c: (int, int, int)| exists|p: (int, int, int)|
                            in_box(pt(bmin), base_shape(sz), p) && p.1 < bmin.1 + y + 1 && #[trigger] chunk_min(p) == c);
                        assert forall|c: (int, int, int)| #[trigger] voxels.chunks().contains(c) <==> next.contains(c) by {
                            if next.contains(c) {
                                let q = choose|q: (int, int, int)| in_box(pt(bmin), base_shape(sz), q) && q.1 < bmin.1 + y + 1
                                    && #[trigger] chunk_min(q) == c;
                                assert(q.1 < bmin.1 + y || (q.1 == bmin.1 + y && q.0 < bmin.0 + x));
                            }
                        }
                        assert(voxels.chunks() =~= next);
                    }
                    y = y + 1;
                }
                proof {
                    assert(voxels.chunks() =~= generated_chunks(o, sz, *style));
                }
            },
            TerrainFillStyle::PerlinNoise { heights, material } => {
                let v = code_of(materials, material);
                let usize_size = size as usize;
                let mut y: i32 = 0;
                while y < size
                    invariant
                        0 <= y <= size,
                        size == sz,
                        usize_size == sz,
                        pt(bmin) == base_min(o, sz),
                        world_box(pt(bmin), base_shape(sz)),
                        *style == (TerrainFillStyle::PerlinNoise { heights: *heights, material: *material }),
                        fill_style_ok(names, o, sz, *style),
                        v == material_code(names, material@),
                        forall|q: (int, int, int)| #[trigger] voxels.voxel(q) == if on_base(pt(bmin), sz, q.0, q.1) && q.1 < bmin.1 + y {
                            generated_voxel(names, o, sz, *style, q)
                        } else {
                            0
                        },
                        voxels.chunks() == Set::new(|c: (int, int, int)| exists|cx: int, cy: int| on_base(pt(bmin), sz, cx, cy)
                            && cy < bmin.1 + y
                            && #[trigger] in_span((cx, cy, column_height(heights@, pt(bmin), sz, cx, cy) - 8), (1, 1, 8), c)),
                    decreases size - y,
                {
                    let mut x: i32 = 0;
                    while x < size
                        invariant
                            0 <= y < size,
                            0 <= x <= size,
                            size == sz,
                            usize_size == sz,
                            pt(bmin) == base_min(o, sz),
                            world_box(pt(bmin), base_shape(sz)),
                            *style == (TerrainFillStyle::PerlinNoise { heights: *heights, material: *material }),
                            fill_style_ok(names, o, sz, *style),
                            v == material_code(names, material@),
                            forall|q: (int, int, int)| #[trigger] voxels.voxel(q) == if on_base(pt(bmin), sz, q.0, q.1)
                                && (q.1 < bmin.1 + y || (q.1 == bmin.1 + y && q.0 < bmin.0 + x)) {
                                generated_voxel(names, o, sz, *style, q)
                            } else {
                                0
                            },
                            voxels.chunks() == Set::new(|c: (int, int, int)| exists|cx: int, cy: int| on_base(pt(bmin), sz, cx, cy)
                                && (cy < bmin.1 + y || (cy == bmin.1 + y && cx < bmin.0 + x))
                                && #[trigger] in_span((cx, cy, column_height(heights@, pt(bmin), sz, cx, cy) - 8), (1, 1, 8), c)),
                        decreases size - x,
                    {
                        let n = heights.len();
                        proof {
                            assert(y * sz + x < sz * sz && y * sz <= y * sz + x) by (nonlinear_arith)
                                requires 0 <= y < sz, 0 <= x < sz;
                            assert(heights@.len() == sz * sz);
                            assert(heights@.len() <= usize::MAX);
                        }
                        let idx = y as usize * usize_size + x as usize;
                        proof {
                            assert(idx == (y + bmin.1 - bmin.1) * sz + (x + bmin.0 - bmin.0));
                        }
                        let h = heights[idx];
                        let top = (bmin.0 + x, bmin.1 + y, h - 8);
                        let ghost cx = bmin.0 + x;
                        let ghost cy = bmin.1 + y;
                        assert(h as int == column_height(heights@, pt(bmin), sz, cx, cy));
                        let ghost before = voxels.chunks();
                        voxels.fill_box(top, (1, 1, 8), v);
                        proof {
                            let after = Set::new(|c: (int, int, int)| exists|ax: int, ay: int| on_base(pt(bmin), sz, ax, ay)
                                && (ay < bmin.1 + y || (ay == bmin.1 + y && ax < bmin.0 + x + 1))
                                && #[trigger] in_span((ax, ay, column_height(heights@, pt(bmin), sz, ax, ay) - 8), (1, 1, 8), c));
                            assert forall|c: (int, int, int)| #[trigger] voxels.chunks().contains(c) <==> after.contains(c) by {
                                if span(pt(top), (1, 1, 8)).contains(c) {
                                    assert(in_span((cx, cy, column_height(heights@, pt(bmin), sz, cx, cy) - 8), (1, 1, 8), c));
                                }
                                if after.contains(c) {
                                    let (ax, ay) = choose|ax: int, ay: int| on_base(pt(bmin), sz, ax, ay)
                                        && (ay < bmin.1 + y || (ay == bmin.1 + y && ax < bmin.0 + x + 1))
                                        && #[trigger] in_span((ax, ay, column_height(heights@, pt(bmin), sz, ax, ay) - 8), (1, 1, 8), c);
                                    if !(ay == cy && ax == cx) {
                                        assert(before.contains(c));
                                    }
                                }
                            }
                            assert(voxels.chunks() =~= after);
                        }
                        x = x + 1;
                    }
                    proof {
                        let next = Set::new(|c: (int, int, int)| exists|ax: int, ay: int| on_base(pt(bmin), sz, ax, ay)
                            && ay < bmin.1 + y + 1
                            && #[trigger] in_span((ax, ay, column_height(heights@, pt(bmin), sz, ax, ay) - 8), (1, 1, 8), c));
                        assert forall|c: (int, int, int)| #[trigger] voxels.chunks().contains(c) <==> next.contains(c) by {
                            if next.contains(c) {
                                let (ax, ay) = choose|ax: int, ay: int| on_base(pt(bmin), sz, ax, ay) && ay < bmin.1 + y + 1
                                    && #[trigger] in_span((ax, ay, column_height(heights@, pt(bmin), sz, ax, ay) - 8), (1, 1, 8), c);
                                assert(ay < bmin.1 + y || (ay == bmin.1 + y && ax < bmin.0 + x));
                            }
                        }
                        assert(voxels.chunks() =~= next);
                    }
                    y = y + 1;
                }
                proof {
                    assert(voxels.chunks() =~= generated_chunks(o, sz, *style));
                }
            },
        }
        voxels
    }
}


/// The meshes of the chunks in `states`.
pub open spec fn meshes_of(states: Map<(int, int, int), TerrainChunk>, h: usize) -> bool {
    exists|k: (int, int, int)| #[trigger] states.dom().contains(k) && states[k].mesh == Some(h)
}

proof fn lemma_chunk_in_span(b: ((int, int, int), (int, int, int)), c: (int, int, int))
    requires
        chunk_in_box(b, c),
        chunk_ok(c),
    ensures
        in_span(b.0, b.1, c),
{
    vstd::arithmetic::div_mod::lemma_div_is_ordered(b.0.0, c.0, 16);
    vstd::arithmetic::div_mod::lemma_div_is_ordered(b.0.1, c.1, 16);
    vstd::arithmetic::div_mod::lemma_div_is_ordered(b.0.2, c.2, 16);
    vstd::arithmetic::div_mod::lemma_div_is_ordered(c.0, b.0.0 + b.1.0 - 1, 16);
    vstd::arithmetic::div_mod::lemma_div_is_ordered(c.1, b.0.1 + b.1.1 - 1, 16);
    vstd::arithmetic::div_mod::lemma_div_is_ordered(c.2, b.0.2 + b.1.2 - 1, 16);
}

impl Terrain {
    /// Forgets every chunk's render state (their meshes are released and returned) and marks
    /// every chunk the voxels occupy as needing a mesh. The voxels must occupy a chunk.
    fn reset_chunks(&mut self) -> (released: Vec<usize>)
        requires
            exists|c: (int, int, int)| old(self).voxels().chunks().contains(c),
        ensures
            forall|h: usize| released@.contains(h) <==> meshes_of(old(self).chunk_states(), h),
            final(self).chunk_states() == mark_dirty(Map::empty(), old(self).voxels().chunks()),
            final(self).listed() == old(self).voxels().chunks(),
            final(self).builders() == 0,
            final(self).voxels() == old(self).voxels(),
            final(self).material_names() == old(self).material_names(),
            final(self).is_initialized() == old(self).is_initialized(),
            final(self).requests() == old(self).requests(),
            final(self).request_counter() == old(self).request_counter(),
    {
        proof {
            use_type_invariant(&*self);
        }
        let released = self.chunks.meshes();
        self.active_builders = 0;
        let mut super_chunks = SuperChunkIndex::new();
        std::mem::swap(&mut super_chunks, &mut self.super_chunks);
        let mut chunks = ChunkTable::new();
        std::mem::swap(&mut chunks, &mut self.chunks);
        let ghost vc = self.voxels.chunks();
        let (bmin, bshape) = self.voxels.bounds();
        proof {
            let c0 = choose|c: (int, int, int)| vc.contains(c) && c.0 == bmin.0;
            let c1 = choose|c: (int, int, int)| vc.contains(c) && c.1 == bmin.1;
            let c2 = choose|c: (int, int, int)| vc.contains(c) && c.2 == bmin.2;
            let d0 = choose|c: (int, int, int)| vc.contains(c) && c.0 + 16 == bmin.0 + bshape.0;
            let d1 = choose|c: (int, int, int)| vc.contains(c) && c.1 + 16 == bmin.1 + bshape.1;
            let d2 = choose|c: (int, int, int)| vc.contains(c) && c.2 + 16 == bmin.2 + bshape.2;
            assert(chunk_ok(c0) && chunk_ok(c1) && chunk_ok(c2) && chunk_ok(d0) && chunk_ok(d1) && chunk_ok(d2));
            assert(chunk_in_box((pt(bmin), pt(bshape)), c0));
        }
        let occupied = self.voxels.occupied_chunks(bmin, bshape);
        proof {
            assert forall|c: (int, int, int)| #[trigger] vc.contains(c) implies in_span(pt(bmin), pt(bshape), c) by {
                lemma_chunk_in_span((pt(bmin), pt(bshape)), c);
            }
            assert(point_set(occupied@) =~= vc);
            assert forall|k: (int, int, int)| #[trigger] pts(occupied@).contains(k) implies key_ok(k) by {
                assert(chunk_ok(k));
            }
            assert(self.chunk_states() =~= Map::empty());
            assert(self.listed() =~= Set::empty());
            assert(Set::<(int, int, int)>::empty() + vc =~= vc);
        }
        self.set_chunks_dirty(&occupied);
        released
    }

    /// A terrain with the given materials whose voxels are generated (see `generate_voxels`),
    /// every occupied chunk awaiting its first mesh.
    pub fn new_terrain(material_names: Vec<String>, origin: (i32, i32, i32), size: u32, style: &TerrainFillStyle) -> (t: Terrain)
        requires
            material_names@.len() <= 65535,
            fill_style_ok(string_views(material_names@), pt(origin), size as int, *style),
            exists|c: (int, int, int)| generated_chunks(pt(origin), size as int, *style).contains(c),
        ensures
            t.material_names() == string_views(material_names@),
            forall|p: (int, int, int)| #[trigger] t.voxels().voxel(p)
                == generated_voxel(string_views(material_names@), pt(origin), size as int, *style, p),
            t.voxels().chunks() == generated_chunks(pt(origin), size as int, *style),
            t.chunk_states() == mark_dirty(Map::empty(), generated_chunks(pt(origin), size as int, *style)),
            t.listed() == generated_chunks(pt(origin), size as int, *style),
            !t.is_initialized(),
            t.builders() == 0,
            jobs_counted(t),
            t.requests().len() == 0,
            t.request_counter() == 0,
    {
        let materials = MaterialTable::new(material_names);
        let voxels = Terrain::generate_voxels(&materials, origin, size, style);
        let mut terrain = Terrain {
            materials,
            voxels,
            initialized: false,
            active_builders: 0,
            chunks: ChunkTable::new(),
            super_chunks: SuperChunkIndex::new(),
            add_requests: Vec::new(),
            current_add_request: 0,
        };
        proof {
            let c = choose|c: (int, int, int)| generated_chunks(pt(origin), size as int, *style).contains(c);
            assert(terrain.voxels().chunks().contains(c));
        }
        let _released = terrain.reset_chunks();
        proof {
            lemma_fresh_count(terrain, generated_chunks(pt(origin), size as int, *style));
        }
        terrain
    }

    /// Regenerates the voxels (see `generate_voxels`) and resets the chunks' render state
    /// (see `reset_chunks`), returning the meshes released.
    pub fn reset(&mut self, origin: (i32, i32, i32), size: u32, style: &TerrainFillStyle) -> (released: Vec<usize>)
        requires
            fill_style_ok(old(self).material_names(), pt(origin), size as int, *style),
            exists|c: (int, int, int)| generated_chunks(pt(origin), size as int, *style).contains(c),
        ensures
            forall|h: usize| released@.contains(h) <==> meshes_of(old(self).chunk_states(), h),
            forall|p: (int, int, int)| #[trigger] final(self).voxels().voxel(p)
                == generated_voxel(old(self).material_names(), pt(origin), size as int, *style, p),
            final(self).voxels().chunks() == generated_chunks(pt(origin), size as int, *style),
            final(self).chunk_states() == mark_dirty(Map::empty(), generated_chunks(pt(origin), size as int, *style)),
            final(self).listed() == generated_chunks(pt(origin), size as int, *style),
            final(self).builders() == 0,
            jobs_counted(*final(self)),
            final(self).material_names() == old(self).material_names(),
            final(self).is_initialized() == old(self).is_initialized(),
            final(self).requests() == old(self).requests(),
            final(self).request_counter() == old(self).request_counter(),
    {
        proof {
            use_type_invariant(&*self);
        }
        let voxels = Terrain::generate_voxels(&self.materials, origin, size, style);
        self.voxels = voxels;
        proof {
            let c = choose|c: (int, int, int)| generated_chunks(pt(origin), size as int, *style).contains(c);
            assert(self.voxels().chunks().contains(c));
        }
        let released = self.reset_chunks();
        proof {
            lemma_fresh_count(*self, generated_chunks(pt(origin), size as int, *style));
        }
        released
    }
}


/// The voxels of a tile.
pub open spec fn tile_voxels(tile: EnvTileAsset) -> VoxelArray {
    tile.inner.voxels
}

/// The terrain voxel codes of a tile's palette entries.
pub open spec fn palette_codes(names: Seq<Seq<char>>, palette: Seq<Seq<char>>) -> Seq<u16> {
    palette.map_values(|n: Seq<char>| material_code(names, n))
}

/// A tile voxel (a 1-based palette position, 0 for empty) as a terrain voxel code.
pub open spec fn remapped(codes: Seq<u16>, v: u16) -> u16 {
    if v == 0 {
        0
    } else {
        codes[v - 1]
    }
}

/// Where a tile of the given shape is placed to stand on `position`: centered in x and y,
/// its bottom at `position`'s height.
pub open spec fn placed_min(position: (int, int, int), shape: (int, int, int)) -> (int, int, int) {
    (position.0 - shape.0 / 2, position.1 - shape.1 / 2, position.2)
}

/// The box one voxel wider on every side.
pub open spec fn padded_min(min: (int, int, int)) -> (int, int, int) {
    (min.0 - 1, min.1 - 1, min.2 - 1)
}

/// The shape of the box one voxel wider on every side.
pub open spec fn padded_shape(shape: (int, int, int)) -> (int, int, int) {
    (shape.0 + 2, shape.1 + 2, shape.2 + 2)
}

/// Whether a tile can be placed at `position` in a terrain with materials `names`: every
/// palette entry names a material, every voxel is empty or a palette position, and the
/// placed box lies in the world.
pub open spec fn tile_placeable(names: Seq<Seq<char>>, tile: EnvTileAsset, position: (int, int, int)) -> bool {
    let a = tile.inner.voxels;
    &&& forall|i: int| 0 <= i < tile.inner.palette@.len() ==> #[trigger] last_index_of(names, tile.inner.palette@[i]@) is Some
    &&& forall|q: (int, int, int)| #[trigger] a.contains(q) ==> a.at(q) <= tile.inner.palette@.len()
    &&& world_box(placed_min(position, a.shape()), a.shape())
    &&& world_box(padded_min(placed_min(position, a.shape())), padded_shape(a.shape()))
}

impl Terrain {
    /// Places a tile standing on `position`: each of its voxels, its palette position turned
    /// into the terrain's material code, overwrites the terrain's (empty ones included), and
    /// every occupied chunk touching the placed box or its one-voxel margin needs a new mesh.
    pub fn instance_tile(&mut self, tile: &EnvTileAsset, position: (i32, i32, i32))
        requires
            tile_placeable(old(self).material_names(), *tile, pt(position)),
        ensures
            ({
                let a = tile.inner.voxels;
                let pmin = placed_min(pt(position), a.shape());
                let codes = palette_codes(old(self).material_names(), string_views(tile.inner.palette@));
                let touched = final(self).voxels().chunks().intersect(span(padded_min(pmin), padded_shape(a.shape())));
                &&& forall|q: (int, int, int)| #[trigger] final(self).voxels().voxel(q) == if in_box(pmin, a.shape(), q) {
                        remapped(codes, a.at(shift(q, pmin, a.min())))
                    } else {
                        old(self).voxels().voxel(q)
                    }
                &&& final(self).voxels().chunks() == old(self).voxels().chunks() + span(pmin, a.shape())
                &&& final(self).chunk_states() == mark_dirty(old(self).chunk_states(), touched)
                &&& final(self).listed() == old(self).listed() + touched
            }),
            final(self).material_names() == old(self).material_names(),
            final(self).is_initialized() == old(self).is_initialized(),
            final(self).builders() == old(self).builders(),
            final(self).requests() == old(self).requests(),
            final(self).request_counter() == old(self).request_counter(),
            jobs_counted(*old(self)) ==> jobs_counted(*final(self)),
    {
        proof {
            use_type_invariant(&*self);
        }
        let ghost t0 = *self;
        let ghost names = self.material_names();
        let ghost ta = tile_voxels(*tile);
        let inner = &tile.inner;
        let ghost codes = palette_codes(names, string_views(inner.palette@));
        let mut pallete: Vec<u16> = Vec::new();
        let mut i: usize = 0;
        while i < inner.palette.len()
            invariant
                i <= inner.palette@.len(),
                names == self.material_names(),
                codes == palette_codes(names, string_views(inner.palette@)),
                forall|j: int| 0 <= j < inner.palette@.len() ==> #[trigger] last_index_of(names, inner.palette@[j]@) is Some,
                pallete@.len() == i,
                forall|j: int| 0 <= j < i ==> #[trigger] pallete@[j] == codes[j],
            decreases inner.palette@.len() - i,
        {
            let c = code_of(&self.materials, &inner.palette[i]);
            pallete.push(c);
            i = i + 1;
        }
        let mut voxels = inner.voxels.clone();
        let (_tmin, tshape) = voxels.extent();
        let pmin = (position.0 - tshape.0 / 2, position.1 - tshape.1 / 2, position.2);
        voxels.set_minimum(pmin);
        let ghost moved = voxels;
        proof {
            assert forall|q: (int, int, int)| #[trigger] moved.contains(q) implies moved.at(q) <= codes.len() by {
                let q0 = shift(q, pt(pmin), ta.min());
                assert(ta.contains(q0));
            }
        }
        let (min, shape) = voxels.extent();
        let mut z: i32 = 0;
        while z < shape.2
            invariant
                0 <= z <= shape.2,
                pt(min) == pt(pmin),
                pt(shape) == ta.shape(),
                storable_box(pt(min), pt(shape)),
                voxels.min() == pt(min),
                voxels.shape() == pt(shape),
                pallete@ == codes,
                codes.len() == inner.palette@.len(),
                forall|q: (int, int, int)| #[trigger] moved.contains(q) ==> moved.at(q) <= codes.len(),
                moved.min() == pt(min),
                moved.shape() == pt(shape),
                forall|q: (int, int, int)| #[trigger] voxels.contains(q) ==> voxels.at(q) == if q.2 < min.2 + z {
                    remapped(codes, moved.at(q))
                } else {
                    moved.at(q)
                },
            decreases shape.2 - z,
        {
            let mut y: i32 = 0;
            while y < shape.1
                invariant
                    0 <= z < shape.2,
                    0 <= y <= shape.1,
                    pt(min) == pt(pmin),
                    pt(shape) == ta.shape(),
                    storable_box(pt(min), pt(shape)),
                    voxels.min() == pt(min),
                    voxels.shape() == pt(shape),
                    pallete@ == codes,
                    codes.len() == inner.palette@.len(),
                    forall|q: (int, int, int)| #[trigger] moved.contains(q) ==> moved.at(q) <= codes.len(),
                    moved.min() == pt(min),
                    moved.shape() == pt(shape),
                    forall|q: (int, int, int)| #[trigger] voxels.contains(q) ==> voxels.at(q) == if q.2 < min.2 + z
                        || (q.2 == min.2 + z && q.1 < min.1 + y) {
                        remapped(codes, moved.at(q))
                    } else {
                        moved.at(q)
                    },
                decreases shape.1 - y,
            {
                let mut x: i32 = 0;
                while x < shape.0
                    invariant
                        0 <= z < shape.2,
                        0 <= y < shape.1,
                        0 <= x <= shape.0,
                        pt(min) == pt(pmin),
                        pt(shape) == ta.shape(),
                        storable_box(pt(min), pt(shape)),
                        voxels.min() == pt(min),
                        voxels.shape() == pt(shape),
                        pallete@ == codes,
                        codes.len() == inner.palette@.len(),
                        forall|q: (int, int, int)| #[trigger] moved.contains(q) ==> moved.at(q) <= codes.len(),
                        moved.min() == pt(min),
                        moved.shape() == pt(shape),
                        forall|q: (int, int, int)| #[trigger] voxels.contains(q) ==> voxels.at(q) == if q.2 < min.2 + z
                            || (q.2 == min.2 + z && (q.1 < min.1 + y || (q.1 == min.1 + y && q.0 < min.0 + x))) {
                            remapped(codes, moved.at(q))
                        } else {
                            moved.at(q)
                        },
                    decreases shape.0 - x,
                {
                    let p = (min.0 + x, min.1 + y, min.2 + z);
                    assert(voxels.contains(pt(p)));
                    assert(moved.contains(pt(p)));
                    let v = voxels.get(p);
                    assert(v == moved.at(pt(p)));
                    let ghost v0 = voxels;
                    if v != 0 {
                        let c = pallete[(v - 1) as usize];
                        voxels.set(p, c);
                    }
                    assert(voxels.at(pt(p)) == remapped(codes, moved.at(pt(p))));
                    proof {
                        assert forall|q: (int, int, int)| #[trigger] voxels.contains(q) implies voxels.at(q) == if q.2 < min.2 + z
                            || (q.2 == min.2 + z && (q.1 < min.1 + y || (q.1 == min.1 + y && q.0 < min.0 + x + 1))) {
                            remapped(codes, moved.at(q))
                        } else {
                            moved.at(q)
                        } by {
                            if q != pt(p) {
                                assert(v0.contains(q));
                            }
                        }
                    }
                    x = x + 1;
                }
                y = y + 1;
            }
            z = z + 1;
        }
        proof {
            assert forall|q: (int, int, int)| in_box(pt(pmin), ta.shape(), q) implies
                #[trigger] voxels.at(q) == remapped(codes, ta.at(shift(q, pt(pmin), ta.min()))) by {
                assert(voxels.contains(q));
                assert(moved.contains(q));
            }
        }
        let mut tv = TerrainVoxels::new();
        std::mem::swap(&mut tv, &mut self.voxels);
        tv.write_array(&voxels);
        std::mem::swap(&mut tv, &mut self.voxels);
        let occupied = self.voxels.occupied_chunks(
            (min.0 - 1, min.1 - 1, min.2 - 1),
            (shape.0 + 2, shape.1 + 2, shape.2 + 2),
        );
        proof {
            assert forall|k: (int, int, int)| #[trigger] pts(occupied@).contains(k) implies key_ok(k) by {
                assert(chunk_ok(k));
            }
            assert(point_set(occupied@) =~= self.voxels().chunks().intersect(
                span(padded_min(pt(pmin)), padded_shape(ta.shape())),
            ));
        }
        let ghost touched = point_set(occupied@);
        self.set_chunks_dirty(&occupied);
        proof {
            lemma_dirty_keeps_count(t0, *self, touched);
        }
    }
}


/// Whether `p` lies on the tile-editing platform: 32x32 voxels centered on the origin in x
/// and y, 32 high from z = 0.
pub open spec fn on_platform(p: (int, int, int)) -> bool {
    in_box((-16, -16, 0), (32, 32, 32), p)
}

/// Whether `p` is a non-empty voxel on the platform.
pub open spec fn filled(t: Terrain, p: (int, int, int)) -> bool {
    on_platform(p) && t.voxels().voxel(p) != 0
}

/// Whether `p` is filled and comes before `(x, y, z)` in the scan of the platform.
pub open spec fn filled_before(t: Terrain, p: (int, int, int), x: int, y: int, z: int) -> bool {
    filled(t, p) && index_before(p, (x, y, z))
}

/// The corners an edited tile is cut at: the least x and y and the greatest x, y and z of the
/// filled voxels, z starting at 0 (with 32, 32, 0 and -32, -32, -32 when nothing is filled).
pub open spec fn edited_bounds(t: Terrain, mn: (int, int, int), mx: (int, int, int)) -> bool {
    &&& mn.2 == 0
    &&& forall|p: (int, int, int)| #[trigger] filled(t, p) ==> mn.0 <= p.0 && mn.1 <= p.1 && p.0 <= mx.0 && p.1 <= mx.1 && p.2 <= mx.2
    &&& mn.0 == 32 || exists|p: (int, int, int)| #[trigger] filled(t, p) && p.0 == mn.0
    &&& mn.1 == 32 || exists|p: (int, int, int)| #[trigger] filled(t, p) && p.1 == mn.1
    &&& mx.0 == -32 || exists|p: (int, int, int)| #[trigger] filled(t, p) && p.0 == mx.0
    &&& mx.1 == -32 || exists|p: (int, int, int)| #[trigger] filled(t, p) && p.1 == mx.1
    &&& mx.2 == -32 || exists|p: (int, int, int)| #[trigger] filled(t, p) && p.2 == mx.2
}

/// The shape of the box from `mn` to `mx`, no side below 0.
pub open spec fn corner_shape(mn: (int, int, int), mx: (int, int, int)) -> (int, int, int) {
    (
        if mx.0 - mn.0 + 1 > 0 { mx.0 - mn.0 + 1 } else { 0 },
        if mx.1 - mn.1 + 1 > 0 { mx.1 - mn.1 + 1 } else { 0 },
        if mx.2 - mn.2 + 1 > 0 { mx.2 - mn.2 + 1 } else { 0 },
    )
}

/// `mx - mn + 1`, or 0 where that is negative.
fn side(mn: i32, mx: i32) -> (r: i32)
    requires
        -64 <= mn <= 64,
        -64 <= mx <= 64,
    ensures
        r == if mx - mn + 1 > 0 { mx - mn + 1 } else { 0 },
{
    if mx - mn + 1 > 0 {
        mx - mn + 1
    } else {
        0
    }
}

/// Whether every voxel on the editing platform is empty or has one of the terrain's materials.
pub open spec fn platform_savable(t: Terrain) -> bool {
    forall|p: (int, int, int)| #[trigger] on_platform(p) ==> t.voxels().voxel(p) <= t.material_names().len()
}

impl Terrain {
    /// Whether the tile on the editing platform can be saved (see `platform_savable`): a
    /// voxel code beyond the material list has no name to write.
    pub fn edited_tile_savable(&self) -> (b: bool)
        ensures
            b == platform_savable(*self),
    {
        let n = self.materials.len();
        let mut z: i32 = 0;
        while z < 32
            invariant
                0 <= z <= 32,
                n == self.material_names().len(),
                forall|p: (int, int, int)| #[trigger] on_platform(p) && p.2 < z ==> self.voxels().voxel(p) <= n,
            decreases 32 - z,
        {
            let mut y: i32 = -16;
            while y < 16
                invariant
                    0 <= z < 32,
                    -16 <= y <= 16,
                    n == self.material_names().len(),
                    forall|p: (int, int, int)| #[trigger] on_platform(p) && (p.2 < z || (p.2 == z && p.1 < y))
                        ==> self.voxels().voxel(p) <= n,
                decreases 16 - y,
            {
                let mut x: i32 = -16;
                while x < 16
                    invariant
                        0 <= z < 32,
                        -16 <= y < 16,
                        -16 <= x <= 16,
                        n == self.material_names().len(),
                        forall|p: (int, int, int)| #[trigger] on_platform(p) && (p.2 < z || (p.2 == z && (p.1 < y
                            || (p.1 == y && p.0 < x)))) ==> self.voxels().voxel(p) <= n,
                    decreases 16 - x,
                {
                    let v = self.voxel((x, y, z));
                    if v.0 as usize > n {
                        proof {
                            assert(on_platform((x as int, y as int, z as int)));
                        }
                        return false;
                    }
                    x = x + 1;
                }
                y = y + 1;
            }
            z = z + 1;
        }
        true
    }
}

impl Terrain {
    /// The tile built on the editing platform, named `tile`: the box from the least to the
    /// greatest filled corner (see `edited_bounds`), written out as `EnvTileExporter::encode`
    /// does.
    pub fn save_edited_tile(&self, tile: &str) -> (data: EnvTileAssetData)
        requires
            platform_savable(*self),
        ensures
            data.name@ == tile@,
            exists|mn: (int, int, int), mx: (int, int, int), a: VoxelArray| {
                &&& edited_bounds(*self, mn, mx)
                &&& a.min() == mn
                &&& a.shape() == corner_shape(mn, mx)
                &&& forall|q: (int, int, int)| #[trigger] a.contains(q) ==> a.at(q) == self.voxels().voxel(q)
                &&& first_use_palette(string_views(data.palette@), a, self.material_names())
                &&& text_views(data.voxels@) == tile_text(a, self.material_names(), string_views(data.palette@))
            },
    {
        let mut mn: (i32, i32, i32) = (32, 32, 0);
        let mut mx: (i32, i32, i32) = (-32, -32, -32);
        let mut z: i32 = 0;
        while z < 32
            invariant
                0 <= z <= 32,
                -32 <= mn.0 <= 32 && -32 <= mn.1 <= 32 && mn.2 == 0,
                -32 <= mx.0 <= 32 && -32 <= mx.1 <= 32 && -32 <= mx.2 <= 32,
                forall|p: (int, int, int)| #[trigger] filled_before(*self, p, -16, -16, z as int)
                    ==> mn.0 <= p.0 && mn.1 <= p.1 && p.0 <= mx.0 && p.1 <= mx.1 && p.2 <= mx.2,
                mn.0 == 32 || exists|p: (int, int, int)| #[trigger] filled_before(*self, p, -16, -16, z as int) && p.0 == mn.0,
                mn.1 == 32 || exists|p: (int, int, int)| #[trigger] filled_before(*self, p, -16, -16, z as int) && p.1 == mn.1,
                mx.0 == -32 || exists|p: (int, int, int)| #[trigger] filled_before(*self, p, -16, -16, z as int) && p.0 == mx.0,
                mx.1 == -32 || exists|p: (int, int, int)| #[trigger] filled_before(*self, p, -16, -16, z as int) && p.1 == mx.1,
                mx.2 == -32 || exists|p: (int, int, int)| #[trigger] filled_before(*self, p, -16, -16, z as int) && p.2 == mx.2,
            decreases 32 - z,
        {
            let mut y: i32 = -16;
            while y < 16
                invariant
                    0 <= z < 32,
                    -16 <= y <= 16,
                    -32 <= mn.0 <= 32 && -32 <= mn.1 <= 32 && mn.2 == 0,
                    -32 <= mx.0 <= 32 && -32 <= mx.1 <= 32 && -32 <= mx.2 <= 32,
                    forall|p: (int, int, int)| #[trigger] filled_before(*self, p, -16, y as int, z as int)
                        ==> mn.0 <= p.0 && mn.1 <= p.1 && p.0 <= mx.0 && p.1 <= mx.1 && p.2 <= mx.2,
                    mn.0 == 32 || exists|p: (int, int, int)| #[trigger] filled_before(*self, p, -16, y as int, z as int) && p.0 == mn.0,
                    mn.1 == 32 || exists|p: (int, int, int)| #[trigger] filled_before(*self, p, -16, y as int, z as int) && p.1 == mn.1,
                    mx.0 == -32 || exists|p: (int, int, int)| #[trigger] filled_before(*self, p, -16, y as int, z as int) && p.0 == mx.0,
                    mx.1 == -32 || exists|p: (int, int, int)| #[trigger] filled_before(*self, p, -16, y as int, z as int) && p.1 == mx.1,
                    mx.2 == -32 || exists|p: (int, int, int)| #[trigger] filled_before(*self, p, -16, y as int, z as int) && p.2 == mx.2,
                decreases 16 - y,
            {
                let mut x: i32 = -16;
                while x < 16
                    invariant
                        0 <= z < 32,
                        -16 <= y < 16,
                        -16 <= x <= 16,
                        -32 <= mn.0 <= 32 && -32 <= mn.1 <= 32 && mn.2 == 0,
                        -32 <= mx.0 <= 32 && -32 <= mx.1 <= 32 && -32 <= mx.2 <= 32,
                        forall|p: (int, int, int)| #[trigger] filled_before(*self, p, x as int, y as int, z as int)
                            ==> mn.0 <= p.0 && mn.1 <= p.1 && p.0 <= mx.0 && p.1 <= mx.1 && p.2 <= mx.2,
                        mn.0 == 32 || exists|p: (int, int, int)| #[trigger] filled_before(*self, p, x as int, y as int, z as int) && p.0 == mn.0,
                        mn.1 == 32 || exists|p: (int, int, int)| #[trigger] filled_before(*self, p, x as int, y as int, z as int) && p.1 == mn.1,
                        mx.0 == -32 || exists|p: (int, int, int)| #[trigger] filled_before(*self, p, x as int, y as int, z as int) && p.0 == mx.0,
                        mx.1 == -32 || exists|p: (int, int, int)| #[trigger] filled_before(*self, p, x as int, y as int, z as int) && p.1 == mx.1,
                        mx.2 == -32 || exists|p: (int, int, int)| #[trigger] filled_before(*self, p, x as int, y as int, z as int) && p.2 == mx.2,
                    decreases 16 - x,
                {
                    let p = (x, y, z);
                    let v = self.voxel(p);
                    let ghost (mn0, mx0) = (mn, mx);
                    if !v.is_empty() {
                        if p.0 < mn.0 {
                            mn.0 = p.0;
                        }
                        if p.1 < mn.1 {
                            mn.1 = p.1;
                        }
                        if p.0 > mx.0 {
                            mx.0 = p.0;
                        }
                        if p.1 > mx.1 {
                            mx.1 = p.1;
                        }
                        if p.2 > mx.2 {
                            mx.2 = p.2;
                        }
                    }
                    proof {
                        let (nx, ny, nz) = (x as int + 1, y as int, z as int);
                        assert forall|q: (int, int, int)| #[trigger] filled_before(*self, q, nx, ny, nz)
                            implies (q == pt(p) || filled_before(*self, q, x as int, y as int, z as int)) by {}
                        assert forall|q: (int, int, int)| #[trigger] filled_before(*self, q, x as int, y as int, z as int)
                            implies filled_before(*self, q, nx, ny, nz) by {}
                        if v.0 != 0 {
                            assert(filled_before(*self, pt(p), nx, ny, nz));
                        }
                        if mn.0 != 32 && mn.0 == mn0.0 {
                            let w = choose|q: (int, int, int)| #[trigger] filled_before(*self, q, x as int, y as int, z as int) && q.0 == mn.0;
                            assert(filled_before(*self, w, nx, ny, nz));
                        }
                        if mn.1 != 32 && mn.1 == mn0.1 {
                            let w = choose|q: (int, int, int)| #[trigger] filled_before(*self, q, x as int, y as int, z as int) && q.1 == mn.1;
                            assert(filled_before(*self, w, nx, ny, nz));
                        }
                        if mx.0 != -32 && mx.0 == mx0.0 {
                            let w = choose|q: (int, int, int)| #[trigger] filled_before(*self, q, x as int, y as int, z as int) && q.0 == mx.0;
                            assert(filled_before(*self, w, nx, ny, nz));
                        }
                        if mx.1 != -32 && mx.1 == mx0.1 {
                            let w = choose|q: (int, int, int)| #[trigger] filled_before(*self, q, x as int, y as int, z as int) && q.1 == mx.1;
                            assert(filled_before(*self, w, nx, ny, nz));
                        }
                        if mx.2 != -32 && mx.2 == mx0.2 {
                            let w = choose|q: (int, int, int)| #[trigger] filled_before(*self, q, x as int, y as int, z as int) && q.2 == mx.2;
                            assert(filled_before(*self, w, nx, ny, nz));
                        }
                    }
                    x = x + 1;
                }
                proof {
                    assert forall|q: (int, int, int)| #[trigger] filled_before(*self, q, 16, y as int, z as int)
                        implies filled_before(*self, q, -16, y as int + 1, z as int) by {}
                    assert forall|q: (int, int, int)| #[trigger] filled_before(*self, q, -16, y as int + 1, z as int)
                        implies filled_before(*self, q, 16, y as int, z as int) by {}
                }
                y = y + 1;
            }
            proof {
                assert forall|q: (int, int, int)| #[trigger] filled_before(*self, q, -16, 16, z as int)
                    implies filled_before(*self, q, -16, -16, z as int + 1) by {}
                assert forall|q: (int, int, int)| #[trigger] filled_before(*self, q, -16, -16, z as int + 1)
                    implies filled_before(*self, q, -16, 16, z as int) by {}
            }
            z = z + 1;
        }
        proof {
            assert forall|q: (int, int, int)| #[trigger] filled(*self, q) <==> filled_before(*self, q, -16, -16, 32) by {}
            assert(edited_bounds(*self, pt(mn), pt(mx)));
        }
        let shape = (side(mn.0, mx.0), side(mn.1, mx.1), side(mn.2, mx.2));
        proof {
            let (a, b, c) = (shape.0 as int, shape.1 as int, shape.2 as int);
            assert(a * b * c <= 65 * 65 * 65) by (nonlinear_arith)
                requires 0 <= a <= 65, 0 <= b <= 65, 0 <= c <= 65;
            assert(a * b <= 65 * 65) by (nonlinear_arith)
                requires 0 <= a <= 65, 0 <= b <= 65;
        }
        let arr = self.voxels.read_box(mn, shape);
        proof {
            assert(arr.shape() == corner_shape(pt(mn), pt(mx)));
            assert forall|lp: (int, int, int)| #[trigger] in_local(arr, lp) implies local_at(arr, lp) <= self.material_names().len() by {
                let q = (arr.min().0 + lp.0, arr.min().1 + lp.1, arr.min().2 + lp.2);
                assert(arr.contains(q));
                if mx.0 == -32 || mx.1 == -32 || mx.2 == -32 || mn.0 == 32 || mn.1 == 32 {
                    assert(false);
                }
                let w0 = choose|p: (int, int, int)| #[trigger] filled(*self, p) && p.0 == mn.0;
                let w1 = choose|p: (int, int, int)| #[trigger] filled(*self, p) && p.1 == mn.1;
                let w2 = choose|p: (int, int, int)| #[trigger] filled(*self, p) && p.0 == mx.0;
                let w3 = choose|p: (int, int, int)| #[trigger] filled(*self, p) && p.1 == mx.1;
                let w4 = choose|p: (int, int, int)| #[trigger] filled(*self, p) && p.2 == mx.2;
                assert(on_platform(w0) && on_platform(w1) && on_platform(w2) && on_platform(w3) && on_platform(w4));
                assert(on_platform(q));
            }
            assert(codes_in_table(arr, self.material_names()));
        }
        let name = tile.to_owned();
        let data = EnvTileExporter::encode(name, &arr, self);
        proof {
            assert(forall|q: (int, int, int)| #[trigger] arr.contains(q) ==> arr.at(q) == self.voxels().voxel(q));
        }
        data
    }
}


/// The distance the scheduler orders chunks by: the larger of the x and y distances from the
/// chunk's least point to the eye.
pub open spec fn eye_dist(c: (int, int, int), eye: (int, int, int)) -> int {
    let dx = if c.0 >= eye.0 { c.0 - eye.0 } else { eye.0 - c.0 };
    let dy = if c.1 >= eye.1 { c.1 - eye.1 } else { eye.1 - c.1 };
    if dx >= dy { dx } else { dy }
}

/// Whether chunk `c` may get a mesh job now: it is listed, near the eye, needs a mesh and
/// has no job running.
pub open spec fn eligible(t: Terrain, eye: (int, int, int), c: (int, int, int)) -> bool {
    &&& t.listed().contains(c)
    &&& near_eye(c, eye)
    &&& t.chunk_states()[c].dirty
    &&& !t.chunk_states()[c].building
}

/// How many mesh jobs may start now: up to 4 while fewer than 16 run once initialized, and
/// up to 65536 for the first batch.
pub open spec fn job_limit(t: Terrain) -> int {
    if t.is_initialized() {
        let free = MAX_RENDER_CHUNK_JOBS - t.builders();
        if free < MAX_NEW_RENDER_CHUNK_JOBS_PER_FRAME { free } else { MAX_NEW_RENDER_CHUNK_JOBS_PER_FRAME as int }
    } else {
        MAX_RENDER_CHUNK_JOBS_INIT as int
    }
}

/// Whether `keys` is a batch the scheduler may pick: eligible chunks, each once, nearest
/// first, as many as the limit allows, and none left out that is nearer than one taken.
pub open spec fn valid_batch(t: Terrain, eye: (int, int, int), keys: Seq<(int, int, int)>) -> bool {
    &&& keys.no_duplicates()
    &&& forall|i: int| 0 <= i < keys.len() ==> eligible(t, eye, #[trigger] keys[i])
    &&& keys.len() <= job_limit(t)
    &&& keys.len() < job_limit(t) ==> forall|c: (int, int, int)| #[trigger] eligible(t, eye, c) ==> keys.contains(c)
    &&& forall|i: int, j: int| 0 <= i < j < keys.len() ==> eye_dist(#[trigger] keys[i], eye) <= eye_dist(#[trigger] keys[j], eye)
    &&& forall|i: int, c: (int, int, int)| 0 <= i < keys.len() && #[trigger] eligible(t, eye, c) && !keys.contains(c)
        ==> eye_dist(#[trigger] keys[i], eye) <= eye_dist(c, eye)
}

/// Once initialized, a batch never brings the running mesh jobs above 16, and adds at most 4.
pub proof fn lemma_batch_respects_cap(t: Terrain, eye: (int, int, int), keys: Seq<(int, int, int)>)
    requires
        valid_batch(t, eye, keys),
        t.is_initialized(),
        t.builders() < MAX_RENDER_CHUNK_JOBS,
    ensures
        t.builders() + keys.len() <= MAX_RENDER_CHUNK_JOBS,
        keys.len() <= MAX_NEW_RENDER_CHUNK_JOBS_PER_FRAME,
{
}

/// A batch holds only listed chunks near the eye that need a new mesh and have no job
/// running.
pub proof fn lemma_batch_needs_mesh(t: Terrain, eye: (int, int, int), keys: Seq<(int, int, int)>)
    requires
        valid_batch(t, eye, keys),
    ensures
        forall|i: int| 0 <= i < keys.len() ==> {
            &&& t.listed().contains(#[trigger] keys[i])
            &&& near_eye(keys[i], eye)
            &&& t.chunk_states()[keys[i]].dirty
            &&& !t.chunk_states()[keys[i]].building
        },
{
    assert forall|i: int| 0 <= i < keys.len() implies {
        &&& t.listed().contains(#[trigger] keys[i])
        &&& near_eye(keys[i], eye)
        &&& t.chunk_states()[keys[i]].dirty
        &&& !t.chunk_states()[keys[i]].building
    } by {
        assert(eligible(t, eye, keys[i]));
    }
}

/// Before any job was started, the batch takes every chunk that may get a job, as long as
/// there are at most 65536 of them.
pub proof fn lemma_first_batch_takes_all(t: Terrain, eye: (int, int, int), keys: Seq<(int, int, int)>)
    requires
        valid_batch(t, eye, keys),
        !t.is_initialized(),
        Set::new(|c: (int, int, int)| eligible(t, eye, c)).finite(),
        Set::new(|c: (int, int, int)| eligible(t, eye, c)).len() <= 65536,
    ensures
        forall|c: (int, int, int)| #[trigger] eligible(t, eye, c) ==> keys.contains(c),
        keys.len() == Set::new(|c: (int, int, int)| eligible(t, eye, c)).len(),
{
    let e = Set::new(|c: (int, int, int)| eligible(t, eye, c));
    let k = keys.to_set();
    keys.unique_seq_to_set();
    assert forall|x: (int, int, int)| #[trigger] k.contains(x) implies e.contains(x) by {
        let i = choose|i: int| 0 <= i < keys.len() && keys[i] == x;
        assert(eligible(t, eye, keys[i]));
    }
    assert(k.subset_of(e));
    vstd::set_lib::lemma_len_subset(k, e);
    if keys.len() >= job_limit(t) {
        if exists|c: (int, int, int)| eligible(t, eye, c) && !keys.contains(c) {
            let c = choose|c: (int, int, int)| eligible(t, eye, c) && !keys.contains(c);
            assert(k.insert(c).subset_of(e));
            vstd::set_lib::lemma_len_subset(k.insert(c), e);
        }
    }
    assert(k =~= e);
}

/// `eye_dist` of `c` from `eye`, in 64 bits.
fn eye_distance(c: (i32, i32, i32), eye: (i32, i32, i32)) -> (d: i64)
    ensures
        d == eye_dist(pt(c), pt(eye)),
{
    let dx = if c.0 >= eye.0 { c.0 as i64 - eye.0 as i64 } else { eye.0 as i64 - c.0 as i64 };
    let dy = if c.1 >= eye.1 { c.1 as i64 - eye.1 as i64 } else { eye.1 as i64 - c.1 as i64 };
    if dx >= dy { dx } else { dy }
}

impl Terrain {
    /// The chunks to start mesh jobs for, nearest to `eye` first (see `valid_batch`).
    pub fn chunks_to_build(&self, eye: (i32, i32, i32)) -> (r: Vec<(i32, i32, i32)>)
        requires
            !self.is_initialized() || self.builders() < MAX_RENDER_CHUNK_JOBS,
        ensures
            valid_batch(*self, pt(eye), pts(r@)),
            forall|i: int| 0 <= i < r@.len() ==> {
                &&& self.chunk_states().dom().contains(pt(#[trigger] r@[i]))
                &&& self.chunk_states()[pt(r@[i])].dirty
                &&& !self.chunk_states()[pt(r@[i])].building
            },
    {
        proof {
            use_type_invariant(self);
        }
        let near = self.super_chunks.near(eye);
        let mut cand: Vec<(i32, i32, i32)> = Vec::new();
        let mut i: usize = 0;
        while i < near.len()
            invariant
                i <= near@.len(),
                pts(near@).no_duplicates(),
                forall|c: (int, int, int)| #[trigger] pts(near@).contains(c) <==> (self.listed().contains(c) && near_eye(c, pt(eye))),
                forall|k: (int, int, int)| #[trigger] self.listed().contains(k) ==> self.chunk_states().dom().contains(k),
                pts(cand@).no_duplicates(),
                forall|c: (int, int, int)| #[trigger] pts(cand@).contains(c) <==> (pts(near@.take(i as int)).contains(c) && eligible(*self, pt(eye), c)),
            decreases near@.len() - i,
        {
            let c = near[i];
            let ghost c0 = cand@;
            proof {
                assert(pts(near@)[i as int] == pt(c));
                assert(pts(near@.take(i as int + 1)) =~= pts(near@.take(i as int)).push(pt(c)));
                assert(!pts(near@.take(i as int)).contains(pt(c))) by {
                    if pts(near@.take(i as int)).contains(pt(c)) {
                        let t0 = pts(near@.take(i as int));
                        let j = choose|j: int| 0 <= j < t0.len() && t0[j] == pt(c);
                        assert(pts(near@)[j] == pt(c));
                    }
                }
            }
            let st = self.chunks.get(c);
            if let Some(ch) = st {
                if ch.dirty && !ch.building {
                    cand.push(c);
                }
            }
            proof {
                let t0 = pts(near@.take(i as int));
                let t1 = pts(near@.take(i as int + 1));
                if cand@.len() > c0.len() {
                    assert(!pts(c0).contains(pt(c)));
                    assert(pts(cand@) =~= pts(c0).push(pt(c)));
                    assert forall|a: int, b: int| 0 <= a < pts(cand@).len() && 0 <= b < pts(cand@).len() && a != b
                        implies pts(cand@)[a] != pts(cand@)[b] by {
                        if a < c0.len() && b < c0.len() {
                            assert(pts(cand@)[a] == pts(c0)[a] && pts(cand@)[b] == pts(c0)[b]);
                        } else if a < c0.len() {
                            assert(pts(c0).contains(pts(cand@)[a]));
                        } else {
                            assert(pts(c0).contains(pts(cand@)[b]));
                        }
                    }
                }
                assert forall|x: (int, int, int)| #[trigger] pts(cand@).contains(x) <==> (t1.contains(x) && eligible(*self, pt(eye), x)) by {
                    if t1.contains(x) && x != pt(c) {
                        let j = choose|j: int| 0 <= j < t1.len() && t1[j] == x;
                        assert(t0[j] == x);
                    }
                    if t0.contains(x) {
                        let j = choose|j: int| 0 <= j < t0.len() && t0[j] == x;
                        assert(t1[j] == x);
                    }
                    if x == pt(c) {
                        assert(t1[i as int] == x);
                        assert(pts(near@).contains(x));
                    }
                    if pts(cand@).contains(x) && !pts(c0).contains(x) {
                        let j = choose|j: int| 0 <= j < pts(cand@).len() && pts(cand@)[j] == x;
                        if j < c0.len() {
                            assert(pts(c0)[j] == x);
                        }
                    }
                    if pts(c0).contains(x) {
                        let j = choose|j: int| 0 <= j < pts(c0).len() && pts(c0)[j] == x;
                        assert(pts(cand@)[j] == x);
                    }
                    if x == pt(c) && t1.contains(x) && eligible(*self, pt(eye), x) && cand@.len() > c0.len() {
                        assert(pts(cand@)[c0.len() as int] == x);
                    }
                }
            }
            i = i + 1;
        }
        proof {
            assert(near@.take(near@.len() as int) =~= near@);
        }
        let limit: usize = if self.initialized {
            let free = MAX_RENDER_CHUNK_JOBS - self.active_builders;
            if free < MAX_NEW_RENDER_CHUNK_JOBS_PER_FRAME { free } else { MAX_NEW_RENDER_CHUNK_JOBS_PER_FRAME }
        } else {
            MAX_RENDER_CHUNK_JOBS_INIT
        };
        let mut r: Vec<(i32, i32, i32)> = Vec::new();
        while r.len() < limit && cand.len() > 0
            invariant
                limit == job_limit(*self),
                r@.len() <= limit,
                pts(r@).no_duplicates(),
                pts(cand@).no_duplicates(),
                forall|x: (int, int, int)| #[trigger] eligible(*self, pt(eye), x) <==> (pts(r@).contains(x) || pts(cand@).contains(x)),
                forall|x: (int, int, int)| #[trigger] pts(r@).contains(x) ==> !pts(cand@).contains(x),
                forall|a: int, b: int| 0 <= a < b < r@.len() ==> eye_dist(#[trigger] pts(r@)[a], pt(eye)) <= eye_dist(#[trigger] pts(r@)[b], pt(eye)),
                forall|a: int, b: int| 0 <= a < r@.len() && 0 <= b < cand@.len() ==> eye_dist(#[trigger] pts(r@)[a], pt(eye)) <= eye_dist(#[trigger] pts(cand@)[b], pt(eye)),
            decreases cand@.len(),
        {
            let mut m: usize = 0;
            let mut best = eye_distance(cand[0], eye);
            let mut k: usize = 1;
            while k < cand.len()
                invariant
                    0 < cand@.len(),
                    m < cand@.len(),
                    1 <= k <= cand@.len(),
                    best == eye_dist(pt(cand@[m as int]), pt(eye)),
                    forall|b: int| 0 <= b < k ==> best <= eye_dist(#[trigger] pts(cand@)[b], pt(eye)),
                decreases cand@.len() - k,
            {
                let d = eye_distance(cand[k], eye);
                if d < best {
                    best = d;
                    m = k;
                }
                k = k + 1;
            }
            let ghost r0 = r@;
            let ghost cd0 = cand@;
            let c = cand.swap_remove(m);
            r.push(c);
            proof {
                let pr = pts(r@);
                let pc = pts(cand@);
                let pr0 = pts(r0);
                let pc0 = pts(cd0);
                assert(pr =~= pr0.push(pt(c)));
                assert(pc0[m as int] == pt(c));
                assert forall|x: (int, int, int)| #[trigger] pc.contains(x) <==> (pc0.contains(x) && x != pt(c)) by {
                    if pc.contains(x) {
                        let j = choose|j: int| 0 <= j < pc.len() && pc[j] == x;
                        if j == m {
                            assert(x == pc0[pc0.len() - 1]);
                            assert(pc0.len() - 1 != m);
                        } else {
                            assert(x == pc0[j]);
                            assert(j != m);
                        }
                    }
                    if pc0.contains(x) && x != pt(c) {
                        let j = choose|j: int| 0 <= j < pc0.len() && pc0[j] == x;
                        if j == pc0.len() - 1 {
                            assert(pc[m as int] == x);
                        } else {
                            assert(j != m);
                            assert(pc[j] == x);
                        }
                    }
                }
                assert(pc.no_duplicates()) by {
                    assert forall|a: int, b: int| 0 <= a < pc.len() && 0 <= b < pc.len() && a != b implies pc[a] != pc[b] by {
                        let a1 = if a == m { pc0.len() - 1 } else { a };
                        let b1 = if b == m { pc0.len() - 1 } else { b };
                        assert(pc[a] == pc0[a1] && pc[b] == pc0[b1]);
                    }
                }
                assert forall|x: (int, int, int)| #[trigger] pr.contains(x) <==> (pr0.contains(x) || x == pt(c)) by {
                    if pr.contains(x) && x != pt(c) {
                        let j = choose|j: int| 0 <= j < pr.len() && pr[j] == x;
                        assert(pr0[j] == x);
                    }
                    if pr0.contains(x) {
                        let j = choose|j: int| 0 <= j < pr0.len() && pr0[j] == x;
                        assert(pr[j] == x);
                    }
                    if x == pt(c) {
                        assert(pr[pr0.len() as int] == x);
                    }
                }
                assert(pr.no_duplicates()) by {
                    assert(!pr0.contains(pt(c))) by {
                        assert(pc0.contains(pt(c)));
                    }
                    assert forall|a: int, b: int| 0 <= a < pr.len() && 0 <= b < pr.len() && a != b implies pr[a] != pr[b] by {
                        if a < pr0.len() && b < pr0.len() {
                            assert(pr[a] == pr0[a] && pr[b] == pr0[b]);
                        } else if a < pr0.len() {
                            assert(pr0.contains(pr[a]));
                        } else {
                            assert(pr0.contains(pr[b]));
                        }
                    }
                }
                assert forall|a: int, b: int| 0 <= a < pr.len() && 0 <= b < pc.len() implies eye_dist(#[trigger] pr[a], pt(eye)) <= eye_dist(#[trigger] pc[b], pt(eye)) by {
                    let b1 = if b == m { pc0.len() - 1 } else { b };
                    assert(pc[b] == pc0[b1]);
                    if a < pr0.len() {
                        assert(pr[a] == pr0[a]);
                    } else {
                        assert(best <= eye_dist(pc0[b1], pt(eye)));
                    }
                }
                assert forall|a: int, b: int| 0 <= a < b < pr.len() implies eye_dist(#[trigger] pr[a], pt(eye)) <= eye_dist(#[trigger] pr[b], pt(eye)) by {
                    if b < pr0.len() {
                        assert(pr[a] == pr0[a] && pr[b] == pr0[b]);
                    } else {
                        assert(pr[a] == pr0[a]);
                        assert(eye_dist(pr0[a], pt(eye)) <= eye_dist(pc0[m as int], pt(eye)));
                    }
                }
            }
        }
        proof {
            let pr = pts(r@);
            assert forall|i: int| 0 <= i < pr.len() implies eligible(*self, pt(eye), #[trigger] pr[i]) by {
                assert(pr.contains(pr[i]));
            }
            assert forall|i: int, c: (int, int, int)| 0 <= i < pr.len() && #[trigger] eligible(*self, pt(eye), c) && !pr.contains(c)
                implies eye_dist(#[trigger] pr[i], pt(eye)) <= eye_dist(c, pt(eye)) by {
                assert(pts(cand@).contains(c));
                let b = choose|b: int| 0 <= b < pts(cand@).len() && pts(cand@)[b] == c;
            }
            assert forall|i: int| 0 <= i < r@.len() implies {
                &&& self.chunk_states().dom().contains(pt(#[trigger] r@[i]))
                &&& self.chunk_states()[pt(r@[i])].dirty
                &&& !self.chunk_states()[pt(r@[i])].building
            } by {
                assert(pr[i] == pt(r@[i]));
                assert(eligible(*self, pt(eye), pr[i]));
            }
        }
        r
    }
}


/// `states` with each chunk of `keys` marked as building and no longer dirty.
pub open spec fn started(states: Map<(int, int, int), TerrainChunk>, keys: Set<(int, int, int)>) -> Map<(int, int, int), TerrainChunk> {
    Map::new(
        |k: (int, int, int)| states.dom().contains(k),
        |k: (int, int, int)| if keys.contains(k) {
            TerrainChunk { dirty: false, building: true, ..states[k] }
        } else {
            states[k]
        },
    )
}

/// Starting jobs for distinct tracked chunks that have none running adds each of them to
/// the chunks with a job running.
proof fn lemma_started_count(states: Map<(int, int, int), TerrainChunk>, keys: Seq<(int, int, int)>)
    requires
        keys.no_duplicates(),
        forall|i: int| 0 <= i < keys.len() ==> states.dom().contains(#[trigger] keys[i]) && !states[keys[i]].building,
        building_chunks(states).finite(),
    ensures
        building_chunks(started(states, keys.to_set())).finite(),
        building_chunks(started(states, keys.to_set())).len() == building_chunks(states).len() + keys.len(),
{
    let b = building_chunks(states);
    let k = keys.to_set();
    assert forall|x: (int, int, int)| #[trigger] k.contains(x) implies states.dom().contains(x) && !states[x].building by {
        let i = choose|i: int| 0 <= i < keys.len() && keys[i] == x;
        assert(keys[i] == x);
    }
    assert(building_chunks(started(states, k)) =~= b + k);
    keys.unique_seq_to_set();
    vstd::seq_lib::seq_to_set_is_finite(keys);
    assert(b.disjoint(k));
    vstd::set_lib::lemma_set_disjoint_lens(b, k);
}

/// A chunk whose job finishes leaves the chunks with a job running.
proof fn lemma_finished_count(states: Map<(int, int, int), TerrainChunk>, k: (int, int, int), c: TerrainChunk)
    requires
        states.dom().contains(k),
        states[k].building,
        !c.building,
        building_chunks(states).finite(),
    ensures
        building_chunks(states.insert(k, c)).finite(),
        building_chunks(states.insert(k, c)).len() + 1 == building_chunks(states).len(),
{
    assert(building_chunks(states.insert(k, c)) =~= building_chunks(states).remove(k));
}

/// A new state for a tracked chunk that keeps its building flag keeps the chunks with a job
/// running.
proof fn lemma_same_building(states: Map<(int, int, int), TerrainChunk>, k: (int, int, int), c: TerrainChunk)
    requires
        states.dom().contains(k),
        states[k].building == c.building,
    ensures
        building_chunks(states.insert(k, c)) == building_chunks(states),
{
    assert(building_chunks(states.insert(k, c)) =~= building_chunks(states));
}

/// The chunk keys of a batch of mesh jobs.
pub open spec fn job_keys(jobs: Seq<((i32, i32, i32), VoxelArray)>) -> Seq<(int, int, int)> {
    jobs.map_values(|j: ((i32, i32, i32), VoxelArray)| pt(j.0))
}

/// What became of a finished mesh job.
pub enum MeshJobOutcome {
    /// The chunk is no longer tracked; the result is dropped.
    Stale,
    /// The chunk's mesh `mesh` gets the new mesh data.
    UpdateMesh { mesh: usize },
    /// Request `request` to add the chunk's first mesh was made.
    AddMesh { request: usize },
    /// The job produced no mesh: the chunk's mesh, if any, is released and the chunk leaves the
    /// scheduler's index.
    Cleared { released: Option<usize> },
}

/// Where a ray cast through the terrain stopped.
pub struct RayCastResult {
    /// The first non-empty voxel met.
    pub hit: (i32, i32, i32),
    /// The voxel visited just before it.
    pub before_hit: (i32, i32, i32),
}

/// Voxels a ray cast visits at most.
pub const RAY_CAST_STEPS: usize = 256;

impl Terrain {
    /// Sets the state of chunk `key`.
    fn set_chunk_state(&mut self, key: (i32, i32, i32), c: TerrainChunk)
        requires
            key_ok(pt(key)),
        ensures
            final(self).chunk_states() == old(self).chunk_states().insert(pt(key), c),
            final(self).listed() == old(self).listed(),
            final(self).voxels() == old(self).voxels(),
            final(self).material_names() == old(self).material_names(),
            final(self).is_initialized() == old(self).is_initialized(),
            final(self).builders() == old(self).builders(),
            final(self).requests() == old(self).requests(),
            final(self).request_counter() == old(self).request_counter(),
    {
        proof {
            use_type_invariant(&*self);
        }
        let mut super_chunks = SuperChunkIndex::new();
        std::mem::swap(&mut super_chunks, &mut self.super_chunks);
        let mut chunks = ChunkTable::new();
        std::mem::swap(&mut chunks, &mut self.chunks);
        chunks.set(key, c);
        std::mem::swap(&mut chunks, &mut self.chunks);
        std::mem::swap(&mut super_chunks, &mut self.super_chunks);
    }

    /// Starts mesh jobs, if fewer than 16 run or none was started yet: picks a batch (see
    /// `chunks_to_build`), marks its chunks as building, and hands out each chunk's voxels with
    /// a one-voxel margin for meshing.
    pub fn start_mesh_jobs(&mut self, eye: (i32, i32, i32)) -> (jobs: Vec<((i32, i32, i32), VoxelArray)>)
        ensures
            old(self).is_initialized() && old(self).builders() >= MAX_RENDER_CHUNK_JOBS ==> jobs@.len() == 0 && *final(self) == *old(self),
            !(old(self).is_initialized() && old(self).builders() >= MAX_RENDER_CHUNK_JOBS) ==> {
                &&& valid_batch(*old(self), pt(eye), job_keys(jobs@))
                &&& forall|i: int| 0 <= i < jobs@.len() ==> old(self).chunk_states()[pt(#[trigger] jobs@[i].0)].dirty
                    && !old(self).chunk_states()[pt(jobs@[i].0)].building
                &&& forall|i: int| 0 <= i < jobs@.len() ==> {
                    let a = #[trigger] jobs@[i].1;
                    &&& a.min() == padded_min(pt(jobs@[i].0))
                    &&& a.shape() == (18int, 18int, 18int)
                    &&& forall|q: (int, int, int)| a.contains(q) ==> #[trigger] a.at(q) == old(self).voxels().voxel(q)
                }
                &&& final(self).chunk_states() == started(old(self).chunk_states(), job_keys(jobs@).to_set())
                &&& final(self).builders() == old(self).builders() + jobs@.len()
                &&& final(self).is_initialized() == (old(self).is_initialized() || jobs@.len() > 0)
                &&& final(self).listed() == old(self).listed()
                &&& final(self).voxels() == old(self).voxels()
                &&& final(self).material_names() == old(self).material_names()
                &&& final(self).requests() == old(self).requests()
                &&& final(self).request_counter() == old(self).request_counter()
            },
            jobs_counted(*old(self)) ==> jobs_counted(*final(self)),
    {
        proof {
            use_type_invariant(&*self);
        }
        let mut jobs: Vec<((i32, i32, i32), VoxelArray)> = Vec::new();
        if self.initialized && self.active_builders >= MAX_RENDER_CHUNK_JOBS {
            return jobs;
        }
        let keys = self.chunks_to_build(eye);
        let ghost t0 = *self;
        let ghost ks = pts(keys@);
        if keys.len() == 0 {
            proof {
                assert(job_keys(jobs@) =~= ks);
                assert(job_keys(jobs@).to_set() =~= Set::<(int, int, int)>::empty());
                assert(self.chunk_states() =~= started(t0.chunk_states(), Set::empty()));
            }
            return jobs;
        }
        self.initialized = true;
        let mut i: usize = 0;
        while i < keys.len()
            invariant
                i <= keys@.len(),
                ks == pts(keys@),
                valid_batch(t0, pt(eye), ks),
                keys@.len() <= job_limit(t0),
                t0.builders() <= MAX_RENDER_CHUNK_JOBS_INIT,
                !t0.is_initialized() ==> t0.builders() == 0,
                t0.is_initialized() ==> t0.builders() < MAX_RENDER_CHUNK_JOBS,
                forall|k: (int, int, int)| #[trigger] t0.listed().contains(k) ==> t0.chunk_states().dom().contains(k),
                forall|k: (int, int, int)| #[trigger] t0.chunk_states().dom().contains(k) ==> key_ok(k),
                self.is_initialized(),
                self.builders() == t0.builders() + i,
                self.chunk_states() == started(t0.chunk_states(), ks.take(i as int).to_set()),
                self.listed() == t0.listed(),
                self.voxels() == t0.voxels(),
                self.material_names() == t0.material_names(),
                self.requests() == t0.requests(),
                self.request_counter() == t0.request_counter(),
                job_keys(jobs@) == ks.take(i as int),
                forall|j: int| 0 <= j < jobs@.len() ==> {
                    let a = #[trigger] jobs@[j].1;
                    &&& a.min() == padded_min(pt(jobs@[j].0))
                    &&& a.shape() == (18int, 18int, 18int)
                    &&& forall|q: (int, int, int)| a.contains(q) ==> #[trigger] a.at(q) == t0.voxels().voxel(q)
                },
            decreases keys@.len() - i,
        {
            let key = keys[i];
            proof {
                assert(ks[i as int] == pt(key));
                assert(eligible(t0, pt(eye), ks[i as int]));
                assert(key_ok(pt(key)));
            }
            let arr = self.voxels.read_box((key.0 - 1, key.1 - 1, key.2 - 1), (18, 18, 18));
            let ghost j0 = jobs@;
            jobs.push((key, arr));
            let ghost s0 = self.chunk_states();
            proof {
                assert(t0.listed().contains(pt(key)));
                assert(t0.chunk_states().dom().contains(pt(key)));
                assert(!ks.take(i as int).to_set().contains(pt(key))) by {
                    if ks.take(i as int).contains(pt(key)) {
                        let j = choose|j: int| 0 <= j < i && ks.take(i as int)[j] == pt(key);
                        assert(ks[j] == ks[i as int]);
                    }
                }
                assert(s0[pt(key)] == t0.chunk_states()[pt(key)]);
                if t0.is_initialized() {
                    assert(keys@.len() <= MAX_NEW_RENDER_CHUNK_JOBS_PER_FRAME);
                }
            }
            match self.chunks.get(key) {
                Some(ch) => {
                    let ch2 = TerrainChunk { dirty: false, building: true, mesh: ch.mesh };
                    self.set_chunk_state(key, ch2);
                    proof {
                        use_type_invariant(&*self);
                    }
                    self.active_builders = self.active_builders + 1;
                },
                None => {},
            }
            proof {
                assert(ks.take(i as int + 1) =~= ks.take(i as int).push(pt(key)));
                assert(job_keys(jobs@) =~= ks.take(i as int + 1));
                let a = ks.take(i as int);
                let b = ks.take(i as int + 1);
                assert forall|x: (int, int, int)| #[trigger] b.to_set().contains(x) <==> a.to_set().contains(x) || x == pt(key) by {
                    if b.contains(x) && x != pt(key) {
                        let j = choose|j: int| 0 <= j < b.len() && b[j] == x;
                        assert(a[j] == x);
                    }
                    if a.contains(x) {
                        let j = choose|j: int| 0 <= j < a.len() && a[j] == x;
                        assert(b[j] == x);
                    }
                    if x == pt(key) {
                        assert(b[i as int] == x);
                    }
                }
                assert(self.chunk_states() =~= started(t0.chunk_states(), b.to_set()));
                assert forall|j: int| 0 <= j < jobs@.len() implies {
                    let a = #[trigger] jobs@[j].1;
                    &&& a.min() == padded_min(pt(jobs@[j].0))
                    &&& a.shape() == (18int, 18int, 18int)
                    &&& forall|q: (int, int, int)| a.contains(q) ==> #[trigger] a.at(q) == t0.voxels().voxel(q)
                } by {
                    if j < j0.len() {
                        assert(jobs@[j] == j0[j]);
                    }
                }
            }
            i = i + 1;
        }
        proof {
            assert(ks.take(keys@.len() as int) =~= ks);
            lemma_batch_needs_mesh(t0, pt(eye), ks);
            assert forall|i: int| 0 <= i < jobs@.len() implies t0.chunk_states()[pt(#[trigger] jobs@[i].0)].dirty
                && !t0.chunk_states()[pt(jobs@[i].0)].building by {
                assert(job_keys(jobs@)[i] == pt(jobs@[i].0));
            }
            if jobs_counted(t0) {
                assert forall|i: int| 0 <= i < ks.len() implies t0.chunk_states().dom().contains(#[trigger] ks[i])
                    && !t0.chunk_states()[ks[i]].building by {
                    assert(eligible(t0, pt(eye), ks[i]));
                }
                lemma_started_count(t0.chunk_states(), ks);
            }
        }
        jobs
    }

    /// Records that the mesh job of chunk `key` finished, `has_mesh` telling whether it
    /// produced a mesh, and decides what to do with the result (see `MeshJobOutcome`).
    pub fn finish_mesh_job(&mut self, key: (i32, i32, i32), has_mesh: bool) -> (out: MeshJobOutcome)
        requires
            key_ok(pt(key)),
            old(self).chunk_states().dom().contains(pt(key)) ==> old(self).builders() > 0,
            old(self).chunk_states().dom().contains(pt(key)) && has_mesh && old(self).chunk_states()[pt(key)].mesh is None
                ==> old(self).request_counter() < usize::MAX,
        ensures
            !old(self).chunk_states().dom().contains(pt(key)) ==> out is Stale && *final(self) == *old(self),
            old(self).chunk_states().dom().contains(pt(key)) ==> {
                let c = old(self).chunk_states()[pt(key)];
                &&& final(self).builders() == old(self).builders() - 1
                &&& has_mesh && c.mesh is Some ==> {
                    &&& out == (MeshJobOutcome::UpdateMesh { mesh: c.mesh.unwrap() })
                    &&& final(self).chunk_states() == old(self).chunk_states().insert(pt(key), TerrainChunk { building: false, ..c })
                    &&& final(self).listed() == old(self).listed()
                    &&& final(self).requests() == old(self).requests()
                    &&& final(self).request_counter() == old(self).request_counter()
                }
                &&& has_mesh && c.mesh is None ==> {
                    &&& out == (MeshJobOutcome::AddMesh { request: (old(self).request_counter() + 1) as usize })
                    &&& final(self).chunk_states() == old(self).chunk_states().insert(pt(key), TerrainChunk { building: false, ..c })
                    &&& final(self).listed() == old(self).listed()
                    &&& final(self).requests() == old(self).requests().push(((old(self).request_counter() + 1) as usize, key))
                    &&& final(self).request_counter() == old(self).request_counter() + 1
                }
                &&& !has_mesh ==> {
                    &&& out == (MeshJobOutcome::Cleared { released: c.mesh })
                    &&& final(self).chunk_states() == old(self).chunk_states().insert(
                        pt(key),
                        TerrainChunk { dirty: c.dirty, building: false, mesh: None },
                    )
                    &&& final(self).listed() == old(self).listed().remove(pt(key))
                    &&& final(self).requests() == old(self).requests()
                    &&& final(self).request_counter() == old(self).request_counter()
                }
                &&& final(self).voxels() == old(self).voxels()
                &&& final(self).material_names() == old(self).material_names()
                &&& final(self).is_initialized() == old(self).is_initialized()
            },
            jobs_counted(*old(self)) && (old(self).chunk_states().dom().contains(pt(key))
                ==> old(self).chunk_states()[pt(key)].building) ==> jobs_counted(*final(self)),
    {
        proof {
            use_type_invariant(&*self);
        }
        let ghost t0 = *self;
        let c = match self.chunks.get(key) {
            Some(c) => c,
            None => {
                return MeshJobOutcome::Stale;
            },
        };
        self.active_builders = self.active_builders - 1;
        if has_mesh {
            self.set_chunk_state(key, TerrainChunk { dirty: c.dirty, building: false, mesh: c.mesh });
            proof {
                if jobs_counted(t0) && t0.chunk_states()[pt(key)].building {
                    lemma_finished_count(t0.chunk_states(), pt(key), TerrainChunk { dirty: c.dirty, building: false, mesh: c.mesh });
                }
            }
            match c.mesh {
                Some(h) => MeshJobOutcome::UpdateMesh { mesh: h },
                None => {
                    proof {
                        use_type_invariant(&*self);
                    }
                    let request = self.current_add_request + 1;
                    let mut reqs: Vec<MeshRequest> = Vec::new();
                    std::mem::swap(&mut reqs, &mut self.add_requests);
                    let ghost r0 = reqs@;
                    reqs.push((request, key));
                    proof {
                        assert forall|a: int| 0 <= a < reqs@.len() implies #[trigger] reqs@[a].0 <= request
                            && key_ok(pt(reqs@[a].1)) by {
                            if a < r0.len() {
                                assert(reqs@[a] == r0[a]);
                            }
                        }
                        assert forall|a: int, b: int| 0 <= a < b < reqs@.len() implies #[trigger] reqs@[a].0 < #[trigger] reqs@[b].0 by {
                            assert(reqs@[a] == r0[a]);
                            if b < r0.len() {
                                assert(reqs@[b] == r0[b]);
                            }
                        }
                    }
                    self.current_add_request = request;
                    self.add_requests = reqs;
                    MeshJobOutcome::AddMesh { request }
                },
            }
        } else {
            self.set_chunk_state(key, TerrainChunk { dirty: c.dirty, building: false, mesh: None });
            proof {
                if jobs_counted(t0) && t0.chunk_states()[pt(key)].building {
                    lemma_finished_count(t0.chunk_states(), pt(key), TerrainChunk { dirty: c.dirty, building: false, mesh: None });
                }
            }
            let mut super_chunks = SuperChunkIndex::new();
            std::mem::swap(&mut super_chunks, &mut self.super_chunks);
            super_chunks.remove(key);
            std::mem::swap(&mut super_chunks, &mut self.super_chunks);
            MeshJobOutcome::Cleared { released: c.mesh }
        }
    }

    /// Records the answer to mesh-add request `request`: the mesh added, or `None` if adding
    /// failed. The request is no longer pending; if its chunk is still tracked and a mesh was
    /// added, the chunk is drawn with it and its key is returned.
    pub fn finish_mesh_add(&mut self, request: usize, mesh: Option<usize>) -> (out: Option<(i32, i32, i32)>)
        ensures
            final(self).voxels() == old(self).voxels(),
            final(self).listed() == old(self).listed(),
            final(self).builders() == old(self).builders(),
            final(self).is_initialized() == old(self).is_initialized(),
            final(self).material_names() == old(self).material_names(),
            final(self).request_counter() == old(self).request_counter(),
            !(exists|i: int| 0 <= i < old(self).requests().len() && #[trigger] old(self).requests()[i].0 == request)
                ==> out is None && *final(self) == *old(self),
            forall|i: int| 0 <= i < old(self).requests().len() && #[trigger] old(self).requests()[i].0 == request ==> {
                let k = old(self).requests()[i].1;
                let states = old(self).chunk_states();
                &&& final(self).requests() == old(self).requests().remove(i)
                &&& (states.dom().contains(pt(k)) && mesh is Some) ==> out == Some(k)
                    && final(self).chunk_states() == states.insert(pt(k), TerrainChunk { mesh: mesh, ..states[pt(k)] })
                &&& !(states.dom().contains(pt(k)) && mesh is Some) ==> out is None && final(self).chunk_states() == states
            },
            jobs_counted(*old(self)) ==> jobs_counted(*final(self)),
    {
        proof {
            use_type_invariant(&*self);
        }
        let mut i: usize = 0;
        while i < self.add_requests.len() && self.add_requests[i].0 != request
            invariant
                i <= self.add_requests@.len(),
                forall|j: int| 0 <= j < i ==> #[trigger] self.add_requests@[j].0 != request,
            decreases self.add_requests@.len() - i,
        {
            i = i + 1;
        }
        if i == self.add_requests.len() {
            return None;
        }
        let ghost r0 = self.add_requests@;
        proof {
            assert forall|j: int| 0 <= j < r0.len() && #[trigger] r0[j].0 == request implies j == i by {
                if j != i {
                    if j < i {
                    } else {
                        assert(r0[i as int].0 < r0[j].0);
                    }
                }
            }
        }
        let mut reqs: Vec<MeshRequest> = Vec::new();
        std::mem::swap(&mut reqs, &mut self.add_requests);
        let (_id, key) = reqs.remove(i);
        proof {
            assert forall|a: int, b: int| 0 <= a < b < reqs@.len() implies #[trigger] reqs@[a].0 < #[trigger] reqs@[b].0 by {
                let a1 = if a < i { a } else { a + 1 };
                let b1 = if b < i { b } else { b + 1 };
                assert(reqs@[a] == r0[a1] && reqs@[b] == r0[b1]);
            }
            assert forall|a: int| 0 <= a < reqs@.len() implies #[trigger] reqs@[a].0 <= self.current_add_request
                && key_ok(pt(reqs@[a].1)) by {
                let a1 = if a < i { a } else { a + 1 };
                assert(reqs@[a] == r0[a1]);
            }
        }
        self.add_requests = reqs;
        proof {
            assert(key_ok(pt(key)));
        }
        match (self.chunks.get(key), mesh) {
            (Some(c), Some(h)) => {
                let ghost s0 = self.chunk_states();
                self.set_chunk_state(key, TerrainChunk { dirty: c.dirty, building: c.building, mesh: Some(h) });
                proof {
                    lemma_same_building(s0, pt(key), TerrainChunk { dirty: c.dirty, building: c.building, mesh: Some(h) });
                }
                Some(key)
            },
            _ => None,
        }
    }

    /// Where a ray through the terrain first meets a non-empty voxel: `cells` are the voxels
    /// the ray visits in order, starting from the one after `start`; at most the first 256 are
    /// looked at.
    pub fn ray_cast(&self, start: (i32, i32, i32), cells: &Vec<(i32, i32, i32)>) -> (r: Option<RayCastResult>)
        ensures
            match r {
                Some(res) => exists|i: int| 0 <= i < cells@.len() && i < RAY_CAST_STEPS && {
                    &&& self.voxels().voxel(pt(cells@[i])) != 0
                    &&& forall|j: int| 0 <= j < i ==> #[trigger] self.voxels().voxel(pt(cells@[j])) == 0
                    &&& res.hit == cells@[i]
                    &&& res.before_hit == if i == 0 { start } else { cells@[i - 1] }
                },
                None => forall|j: int| 0 <= j < cells@.len() && j < RAY_CAST_STEPS
                    ==> #[trigger] self.voxels().voxel(pt(cells@[j])) == 0,
            },
    {
        let mut prev = start;
        let mut i: usize = 0;
        while i < cells.len() && i < RAY_CAST_STEPS
            invariant
                i <= cells@.len(),
                i <= RAY_CAST_STEPS,
                forall|j: int| 0 <= j < i ==> #[trigger] self.voxels().voxel(pt(cells@[j])) == 0,
                prev == if i == 0 { start } else { cells@[i - 1] },
            decreases cells@.len() - i,
        {
            let current = cells[i];
            let vox = self.voxels.get(current);
            if vox != 0 {
                return Some(RayCastResult { hit: current, before_hit: prev });
            }
            prev = current;
            i = i + 1;
        }
        None
    }
}

} // verus!
