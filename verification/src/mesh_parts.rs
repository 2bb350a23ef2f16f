//! Layout of a terrain chunk's mesh: its quads are grouped by material into parts, each
//! with its own range of the shared vertex buffer (four vertices of 48 bytes per quad) and
//! of the shared index buffer (six indices per quad, 16-bit or, for large parts, 32-bit).

use vstd::prelude::*;

verus! {

/// Width of a part's indices.
#[derive(Clone, Copy, Debug, PartialEq, Eq, Structural)]
pub enum MeshIndexType {
    Uint16,
    Uint32,
}

/// One part of a chunk's mesh: the quads of one material and where their vertices and
/// indices lie in the shared buffers.
#[derive(Debug)]
pub struct MeshPartLayout {
    /// The material's index (its voxel code minus one).
    pub material: usize,
    /// The positions of its quads in the chunk's quad list, ascending.
    pub quads: Vec<usize>,
    pub vertex_buffer_offset_in_bytes: u32,
    pub vertex_buffer_size_in_bytes: u32,
    pub index_buffer_offset_in_bytes: u32,
    pub index_buffer_size_in_bytes: u32,
    pub index_type: MeshIndexType,
}

/// The positions in `codes` holding `c`, ascending.
pub open spec fn positions_of(codes: Seq<u16>, c: int) -> Seq<usize>
    decreases codes.len(),
{
    if codes.len() == 0 {
        Seq::empty()
    } else {
        let p = positions_of(codes.drop_last(), c);
        if codes.last() == c {
            p.push((codes.len() - 1) as usize)
        } else {
            p
        }
    }
}

/// Bytes of the vertices of `n` quads.
pub open spec fn vertex_bytes(n: int) -> int {
    192 * n
}

/// Whether `n` quads take 32-bit indices: their six indices each reach 0xFFFF.
pub open spec fn wide_indices(n: int) -> bool {
    6 * n >= 0xFFFF
}

/// Bytes of the indices of `n` quads.
pub open spec fn index_bytes(n: int) -> int {
    if wide_indices(n) {
        24 * n
    } else {
        12 * n
    }
}

/// How many quads have a material below `m` (codes 1 to `m`).
pub open spec fn quads_below(codes: Seq<u16>, m: nat) -> int
    decreases m,
{
    if m == 0 {
        0
    } else {
        quads_below(codes, (m - 1) as nat) + positions_of(codes, m as int).len()
    }
}

/// Index bytes of the parts of materials below `m`.
pub open spec fn index_bytes_below(codes: Seq<u16>, m: nat) -> int
    decreases m,
{
    if m == 0 {
        0
    } else {
        index_bytes_below(codes, (m - 1) as nat) + index_bytes(positions_of(codes, m as int).len() as int)
    }
}

/// The materials below `n` that some quad has, ascending.
pub open spec fn used_materials(codes: Seq<u16>, n: nat) -> Seq<int>
    decreases n,
{
    if n == 0 {
        Seq::empty()
    } else {
        let s = used_materials(codes, (n - 1) as nat);
        if positions_of(codes, n as int).len() > 0 {
            s.push(n - 1)
        } else {
            s
        }
    }
}

/// Whether a mesh can be made of quads with voxel codes `codes`, given which materials are
/// loaded: there is a quad, and each quad's material is loaded.
pub open spec fn mesh_buildable(codes: Seq<u16>, loaded: Seq<bool>) -> bool {
    &&& codes.len() > 0
    &&& forall|i: int| #![trigger codes[i]] 0 <= i < codes.len() ==> codes[i] <= loaded.len() && loaded[codes[i] - 1]
}

/// Whether `p` lays out the part of material `m`: its quads, then its vertices after those
/// of the materials below it, and its indices after theirs.
pub open spec fn part_of(p: MeshPartLayout, codes: Seq<u16>, m: int) -> bool {
    let n = positions_of(codes, m + 1).len() as int;
    &&& p.material == m
    &&& p.quads@ == positions_of(codes, m + 1)
    &&& p.vertex_buffer_offset_in_bytes == vertex_bytes(quads_below(codes, m as nat)) as u32
    &&& p.vertex_buffer_size_in_bytes == vertex_bytes(n) as u32
    &&& p.index_buffer_offset_in_bytes == index_bytes_below(codes, m as nat) as u32
    &&& p.index_buffer_size_in_bytes == index_bytes(n) as u32
    &&& p.index_type == if wide_indices(n) {
        MeshIndexType::Uint32
    } else {
        MeshIndexType::Uint16
    }
}

/// How many of `codes` lie in `1 ..= m`.
spec fn in_range(codes: Seq<u16>, m: int) -> int
    decreases codes.len(),
{
    if codes.len() == 0 {
        0
    } else {
        in_range(codes.drop_last(), m) + if 1 <= codes.last() <= m {
            1int
        } else {
            0int
        }
    }
}

proof fn lemma_in_range_step(codes: Seq<u16>, m: int)
    requires
        m >= 1,
    ensures
        in_range(codes, m) == in_range(codes, m - 1) + positions_of(codes, m).len(),
        0 <= in_range(codes, m) <= codes.len(),
    decreases codes.len(),
{
    if codes.len() > 0 {
        lemma_in_range_step(codes.drop_last(), m);
    }
}

proof fn lemma_in_range_zero(codes: Seq<u16>)
    ensures
        in_range(codes, 0) == 0,
    decreases codes.len(),
{
    if codes.len() > 0 {
        lemma_in_range_zero(codes.drop_last());
    }
}

proof fn lemma_quads_below(codes: Seq<u16>, m: nat)
    ensures
        quads_below(codes, m) == in_range(codes, m as int),
        0 <= quads_below(codes, m) <= codes.len(),
    decreases m,
{
    if m == 0 {
        lemma_in_range_zero(codes);
    } else {
        lemma_quads_below(codes, (m - 1) as nat);
        lemma_in_range_step(codes, m as int);
    }
}

proof fn lemma_index_bytes_below(codes: Seq<u16>, m: nat)
    ensures
        0 <= index_bytes_below(codes, m) <= 24 * quads_below(codes, m),
    decreases m,
{
    if m > 0 {
        lemma_index_bytes_below(codes, (m - 1) as nat);
    }
}

proof fn lemma_positions_beyond(codes: Seq<u16>, c: int)
    requires
        c > u16::MAX,
    ensures
        positions_of(codes, c).len() == 0,
    decreases codes.len(),
{
    if codes.len() > 0 {
        lemma_positions_beyond(codes.drop_last(), c);
    }
}

proof fn lemma_used_beyond(codes: Seq<u16>, a: nat, n: nat)
    requires
        a == u16::MAX,
        a <= n,
    ensures
        used_materials(codes, n) == used_materials(codes, a),
    decreases n,
{
    if n > a {
        lemma_positions_beyond(codes, n as int);
        lemma_used_beyond(codes, a, (n - 1) as nat);
    }
}

/// The positions of `codes` holding `c`.
fn positions(codes: &Vec<u16>, c: u16) -> (p: Vec<usize>)
    ensures
        p@ == positions_of(codes@, c as int),
{
    let mut p: Vec<usize> = Vec::new();
    let mut i: usize = 0;
    while i < codes.len()
        invariant
            i <= codes@.len(),
            p@ == positions_of(codes@.take(i as int), c as int),
        decreases codes@.len() - i,
    {
        proof {
            assert(codes@.take(i + 1).drop_last() =~= codes@.take(i as int));
        }
        if codes[i] == c {
            p.push(i);
        }
        i += 1;
    }
    proof {
        assert(codes@.take(codes@.len() as int) =~= codes@);
    }
    p
}

/// Lays out the mesh of a chunk whose quads (in the order meshing produced them) have the
/// voxel codes `quad_materials`, given which materials are loaded (`materials_loaded`, by
/// index). `None` when there is no quad or a quad's material is not loaded; otherwise one
/// part per material that has quads, in ascending order of material (see `part_of`).
pub fn plan_mesh_parts(quad_materials: &Vec<u16>, materials_loaded: &Vec<bool>) -> (r: Option<Vec<MeshPartLayout>>)
    requires
        forall|i: int| 0 <= i < quad_materials@.len() ==> #[trigger] quad_materials@[i] != 0,
        192 * quad_materials@.len() <= usize::MAX,
    ensures
        r is Some <==> mesh_buildable(quad_materials@, materials_loaded@),
        r matches Some(parts) ==> {
            let used = used_materials(quad_materials@, materials_loaded@.len());
            &&& parts@.len() == used.len()
            &&& forall|k: int| 0 <= k < used.len() ==> #[trigger] part_of(parts@[k], quad_materials@, used[k])
        },
{
    if quad_materials.len() == 0 {
        return None;
    }
    let mut i: usize = 0;
    while i < quad_materials.len()
        invariant
            i <= quad_materials@.len(),
            forall|j: int| 0 <= j < i ==> #[trigger] quad_materials@[j] <= materials_loaded@.len() && materials_loaded@[quad_materials@[j] - 1],
            forall|j: int| 0 <= j < quad_materials@.len() ==> #[trigger] quad_materials@[j] != 0,
        decreases quad_materials@.len() - i,
    {
        let c = quad_materials[i];
        if c as usize > materials_loaded.len() || !materials_loaded[(c - 1) as usize] {
            proof {
                assert(!mesh_buildable(quad_materials@, materials_loaded@));
            }
            return None;
        }
        i += 1;
    }
    let mut parts: Vec<MeshPartLayout> = Vec::new();
    let mut vertex_offset: usize = 0;
    let mut index_offset: usize = 0;
    let limit: usize = if materials_loaded.len() < 0xFFFF {
        materials_loaded.len()
    } else {
        0xFFFF
    };
    let mut m: usize = 0;
    while m < limit
        invariant
            m <= limit <= u16::MAX,
            192 * quad_materials@.len() <= usize::MAX,
            vertex_offset == vertex_bytes(quads_below(quad_materials@, m as nat)),
            index_offset == index_bytes_below(quad_materials@, m as nat),
            parts@.len() == used_materials(quad_materials@, m as nat).len(),
            forall|k: int|
                0 <= k < parts@.len() ==> #[trigger] part_of(parts@[k], quad_materials@, used_materials(quad_materials@, m as nat)[k]),
        decreases limit - m,
    {
        let p = positions(quad_materials, (m + 1) as u16);
        let n = p.len();
        proof {
            lemma_quads_below(quad_materials@, (m + 1) as nat);
            lemma_index_bytes_below(quad_materials@, (m + 1) as nat);
            lemma_quads_below(quad_materials@, m as nat);
            assert(quads_below(quad_materials@, (m + 1) as nat) == quads_below(quad_materials@, m as nat) + n);
        }
        let wide = 6 * n >= 0xFFFF;
        let ib = if wide {
            24 * n
        } else {
            12 * n
        };
        if n > 0 {
            let part = MeshPartLayout {
                material: m,
                quads: p,
                vertex_buffer_offset_in_bytes: vertex_offset as u32,
                vertex_buffer_size_in_bytes: (192 * n) as u32,
                index_buffer_offset_in_bytes: index_offset as u32,
                index_buffer_size_in_bytes: ib as u32,
                index_type: if wide {
                    MeshIndexType::Uint32
                } else {
                    MeshIndexType::Uint16
                },
            };
            parts.push(part);
        }
        vertex_offset = vertex_offset + 192 * n;
        index_offset = index_offset + ib;
        m += 1;
    }
    proof {
        if limit < materials_loaded@.len() {
            lemma_used_beyond(quad_materials@, limit as nat, materials_loaded@.len());
        }
    }
    Some(parts)
}

} // verus!
