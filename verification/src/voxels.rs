//! Voxel storage of the `building_blocks` crate, behind trusted contracts.

use building_blocks::prelude::{
    Array3x1, ChunkHashMap3x1, ChunkMapBuilder, ChunkMapBuilder3x1, Extent3i, Get, GetMut, PointN,
};
use building_blocks::storage::{copy_extent, Array, Channel};
use vstd::prelude::*;

verus! {

#[verifier::external_type_specification]
#[verifier::external_body]
#[verifier::reject_recursive_types(N)]
#[verifier::reject_recursive_types(Chan)]
pub struct ExArray<N, Chan>(Array<N, Chan>);

#[verifier::external_type_specification]
#[verifier::external_body]
#[verifier::reject_recursive_types(T)]
#[verifier::reject_recursive_types(Store)]
pub struct ExChannel<T, Store>(Channel<T, Store>);

/// What a dense voxel array holds, point by point.
pub uninterp spec fn array_values(a: Array3x1<u16>) -> Map<(int, int, int), u16>;

/// The extent (minimum, shape) of a dense voxel array.
pub uninterp spec fn array_extent(a: Array3x1<u16>) -> ((int, int, int), (int, int, int));

/// `Array3x1::fill`: a dense array over the extent `min`/`shape` with every point set to `value`.
/// Its number of points is computed as `x * y * z` in `i32`, so both products must fit.
#[verifier::external_body]
pub(crate) fn array_fill(min: (i32, i32, i32), shape: (i32, i32, i32), value: u16) -> (a: Array3x1<u16>)
    requires
        shape.0 >= 0,
        shape.1 >= 0,
        shape.2 >= 0,
        shape.0 * shape.1 <= i32::MAX,
        shape.0 * shape.1 * shape.2 <= i32::MAX,
    ensures
        array_extent(a) == ((min.0 as int, min.1 as int, min.2 as int), (shape.0 as int, shape.1 as int, shape.2 as int)),
        array_values(a) == Map::new(
            |p: (int, int, int)| in_box((min.0 as int, min.1 as int, min.2 as int), (shape.0 as int, shape.1 as int, shape.2 as int), p),
            |p: (int, int, int)| value,
        ),
{
    Array3x1::fill(
        Extent3i::from_min_and_shape(PointN([min.0, min.1, min.2]), PointN([shape.0, shape.1, shape.2])),
        value,
    )
}

/// `Get::get` on a dense array: the value stored at `p`, which must lie in the array's extent.
#[verifier::external_body]
pub(crate) fn array_get(a: &Array3x1<u16>, p: (i32, i32, i32)) -> (v: u16)
    requires
        in_box(array_extent(*a).0, array_extent(*a).1, (p.0 as int, p.1 as int, p.2 as int)),
    ensures
        v == array_values(*a)[(p.0 as int, p.1 as int, p.2 as int)],
{
    a.get(PointN([p.0, p.1, p.2]))
}

/// `GetMut::get_mut` on a dense array, used to overwrite the value at `p`, which must lie in the extent.
#[verifier::external_body]
pub(crate) fn array_set(a: &mut Array3x1<u16>, p: (i32, i32, i32), v: u16)
    requires
        in_box(array_extent(*old(a)).0, array_extent(*old(a)).1, (p.0 as int, p.1 as int, p.2 as int)),
    ensures
        array_extent(*final(a)) == array_extent(*old(a)),
        array_values(*final(a)) == array_values(*old(a)).insert((p.0 as int, p.1 as int, p.2 as int), v),
        forall|q: (int, int, int)| #[trigger] array_values(*final(a)).dom().contains(q)
            <==> (array_values(*old(a)).dom().contains(q) || q == (p.0 as int, p.1 as int, p.2 as int)),
    no_unwind
{
    *a.get_mut(PointN([p.0, p.1, p.2])) = v;
}

/// `Array::extent`: the minimum and shape of a dense array.
#[verifier::external_body]
pub(crate) fn array_extent_of(a: &Array3x1<u16>) -> (e: ((i32, i32, i32), (i32, i32, i32)))
    ensures
        array_extent(*a) == ((e.0.0 as int, e.0.1 as int, e.0.2 as int), (e.1.0 as int, e.1.1 as int, e.1.2 as int)),
{
    let ext = a.extent();
    ((ext.minimum.x(), ext.minimum.y(), ext.minimum.z()), (ext.shape.x(), ext.shape.y(), ext.shape.z()))
}

/// `Array::set_minimum`: moves the array so that its least point is `m`; the values move with it.
#[verifier::external_body]
pub(crate) fn array_set_minimum(a: &mut Array3x1<u16>, m: (i32, i32, i32))
    ensures
        array_extent(*final(a)) == ((m.0 as int, m.1 as int, m.2 as int), array_extent(*old(a)).1),
        array_values(*final(a)) == Map::new(
            |q: (int, int, int)| in_box((m.0 as int, m.1 as int, m.2 as int), array_extent(*old(a)).1, q),
            |q: (int, int, int)| array_values(*old(a))[shift(q, (m.0 as int, m.1 as int, m.2 as int), array_extent(*old(a)).0)],
        ),
    no_unwind
{
    a.set_minimum(PointN([m.0, m.1, m.2]));
}

/// The point `q` moved from a box with least point `from` to one with least point `to`.
pub open spec fn shift(q: (int, int, int), from: (int, int, int), to: (int, int, int)) -> (int, int, int) {
    (q.0 - from.0 + to.0, q.1 - from.1 + to.1, q.2 - from.2 + to.2)
}

/// Whether `p` lies in the box with least point `min` and side lengths `shape`.
pub open spec fn in_box(min: (int, int, int), shape: (int, int, int), p: (int, int, int)) -> bool {
    &&& min.0 <= p.0 < min.0 + shape.0
    &&& min.1 <= p.1 < min.1 + shape.1
    &&& min.2 <= p.2 < min.2 + shape.2
}

} // verus!

verus! {

/// Whether a box with least point `min` and side lengths `shape` is one that a dense
/// array can hold: non-negative sides, a volume computed in `i32` without overflow (the
/// area of the first two sides, then the volume), and coordinates that stay in `i32`.
pub open spec fn storable_box(min: (int, int, int), shape: (int, int, int)) -> bool {
    &&& shape.0 >= 0 && shape.1 >= 0 && shape.2 >= 0
    &&& shape.0 * shape.1 <= i32::MAX
    &&& shape.0 * shape.1 * shape.2 <= i32::MAX
    &&& i32::MIN <= min.0 && min.0 + shape.0 <= i32::MAX
    &&& i32::MIN <= min.1 && min.1 + shape.1 <= i32::MAX
    &&& i32::MIN <= min.2 && min.2 + shape.2 <= i32::MAX
}

/// The point with `i32` coordinates `p`, as a spec triple.
pub open spec fn pt(p: (i32, i32, i32)) -> (int, int, int) {
    (p.0 as int, p.1 as int, p.2 as int)
}

/// A dense box of voxels (material codes, 0 for empty), stored in a `building_blocks` array.
pub struct VoxelArray {
    arr: Array3x1<u16>,
}

impl VoxelArray {
    /// Least point of the box.
    pub closed spec fn min(&self) -> (int, int, int) {
        array_extent(self.arr).0
    }

    /// Side lengths of the box.
    pub closed spec fn shape(&self) -> (int, int, int) {
        array_extent(self.arr).1
    }

    /// The voxel at each point of the box.
    pub closed spec fn values(&self) -> Map<(int, int, int), u16> {
        array_values(self.arr)
    }

    /// Whether `p` lies in the box.
    pub open spec fn contains(&self, p: (int, int, int)) -> bool {
        in_box(self.min(), self.shape(), p)
    }

    /// The voxel at `p`.
    pub open spec fn at(&self, p: (int, int, int)) -> u16 {
        self.values()[p]
    }

    #[verifier::type_invariant]
    spec fn wf(&self) -> bool {
        &&& storable_box(self.min(), self.shape())
        &&& forall|p: (int, int, int)| #[trigger] self.values().dom().contains(p) <==> in_box(self.min(), self.shape(), p)
    }

    /// A box with least point `min` and sides `shape`, every voxel set to `value`.
    pub fn fill(min: (i32, i32, i32), shape: (i32, i32, i32), value: u16) -> (a: VoxelArray)
        requires
            storable_box(pt(min), pt(shape)),
        ensures
            a.min() == pt(min),
            a.shape() == pt(shape),
            forall|p: (int, int, int)| a.contains(p) ==> a.at(p) == value,
    {
        VoxelArray { arr: array_fill(min, shape, value) }
    }

    /// Least point and side lengths of the box.
    pub fn extent(&self) -> (e: ((i32, i32, i32), (i32, i32, i32)))
        ensures
            pt(e.0) == self.min(),
            pt(e.1) == self.shape(),
            storable_box(self.min(), self.shape()),
    {
        proof {
            use_type_invariant(self);
        }
        array_extent_of(&self.arr)
    }

    /// The voxel at `p`, which must lie in the box.
    pub fn get(&self, p: (i32, i32, i32)) -> (v: u16)
        requires
            self.contains(pt(p)),
        ensures
            v == self.at(pt(p)),
    {
        array_get(&self.arr, p)
    }

    /// Overwrites the voxel at `p`, which must lie in the box.
    pub fn set(&mut self, p: (i32, i32, i32), v: u16)
        requires
            old(self).contains(pt(p)),
        ensures
            final(self).min() == old(self).min(),
            final(self).shape() == old(self).shape(),
            final(self).at(pt(p)) == v,
            forall|q: (int, int, int)| q != pt(p) ==> final(self).at(q) == old(self).at(q),
    {
        proof {
            use_type_invariant(&*self);
            assert(self.values().dom().contains(pt(p)));
            assert(forall|q: (int, int, int)| self.values().dom().contains(q) <==> in_box(self.min(), self.shape(), q));
        }
        array_set(&mut self.arr, p, v);
    }

    /// Moves the box so that its least point is `m`; every voxel moves with it.
    pub fn set_minimum(&mut self, m: (i32, i32, i32))
        requires
            storable_box(pt(m), old(self).shape()),
        ensures
            final(self).min() == pt(m),
            final(self).shape() == old(self).shape(),
            forall|q: (int, int, int)| final(self).contains(q) ==>
                final(self).at(q) == old(self).at(shift(q, pt(m), old(self).min())),
    {
        proof {
            use_type_invariant(&*self);
        }
        array_set_minimum(&mut self.arr, m);
    }
}

} // verus!

verus! {

// ---------------------------------------------------------------------------
// The chunked voxel map.
// ---------------------------------------------------------------------------

/// A `building_blocks` chunk hash map of 16-bit voxels, chunks of 16x16x16, ambient value 0,
/// used at level of detail 0 only.
#[verifier::external_body]
pub struct ChunkStore {
    map: ChunkHashMap3x1<u16>,
}

/// The voxels stored in the chunks of a chunk map, point by point.
pub uninterp spec fn chunk_map_voxels(m: ChunkStore) -> Map<(int, int, int), u16>;

/// The least points of the chunks a chunk map holds.
pub uninterp spec fn chunk_map_chunks(m: ChunkStore) -> Set<(int, int, int)>;

/// The voxel at `p`: what the map stores there, or the ambient 0 where no chunk holds `p`.
pub open spec fn voxel_at(m: ChunkStore, p: (int, int, int)) -> u16 {
    if chunk_map_voxels(m).dom().contains(p) {
        chunk_map_voxels(m)[p]
    } else {
        0
    }
}

/// The least coordinate of the chunk that holds coordinate `c`.
pub open spec fn chunk_floor(c: int) -> int {
    (c / 16) * 16
}

/// The least point of the chunk that holds `p`.
pub open spec fn chunk_min(p: (int, int, int)) -> (int, int, int) {
    (chunk_floor(p.0), chunk_floor(p.1), chunk_floor(p.2))
}

/// Whether `c` is the least coordinate of a chunk in the chunk range that the map's indexer
/// gives for the interval starting at `lo` of length `len`: from the chunk of `lo` to the
/// chunk of `lo + len - 1`.
pub open spec fn span_axis(lo: int, len: int, c: int) -> bool {
    &&& c % 16 == 0
    &&& lo / 16 <= c / 16
    &&& c / 16 <= (lo + len - 1) / 16
}

/// Whether `c` is the least point of a chunk that the map's indexer lists for the box.
pub open spec fn in_span(min: (int, int, int), shape: (int, int, int), c: (int, int, int)) -> bool {
    span_axis(min.0, shape.0, c.0) && span_axis(min.1, shape.1, c.1) && span_axis(min.2, shape.2, c.2)
}

/// The chunks that the map's indexer lists for the box.
pub open spec fn span(min: (int, int, int), shape: (int, int, int)) -> Set<(int, int, int)> {
    Set::new(|c: (int, int, int)| in_span(min, shape, c))
}

/// Whether the box is one whose corners the chunk map can compute in `i32`.
pub open spec fn indexable_box(min: (int, int, int), shape: (int, int, int)) -> bool {
    &&& shape.0 >= 0 && shape.1 >= 0 && shape.2 >= 0
    &&& i32::MIN < min.0 && min.0 + shape.0 <= i32::MAX
    &&& i32::MIN < min.1 && min.1 + shape.1 <= i32::MAX
    &&& i32::MIN < min.2 && min.2 + shape.2 <= i32::MAX
}

/// `ChunkMapBuilder3x1::build_with_hash_map_storage`: an empty map with 16x16x16 chunks and
/// ambient value 0.
#[verifier::external_body]
fn chunk_map_new() -> (m: ChunkStore)
    ensures
        chunk_map_voxels(m).dom().is_empty(),
        chunk_map_chunks(m).is_empty(),
{
    ChunkStore { map: ChunkMapBuilder3x1::new(PointN([16, 16, 16]), 0u16).build_with_hash_map_storage() }
}

/// `ChunkMap::get_point` at level of detail 0: the stored voxel, or the ambient 0.
#[verifier::external_body]
fn chunk_map_get(m: &ChunkStore, p: (i32, i32, i32)) -> (v: u16)
    ensures
        v == voxel_at(*m, pt(p)),
{
    let r: &u16 = m.map.get_point(0, PointN([p.0, p.1, p.2]));
    *r
}

/// `ChunkMap::get_mut_point` at level of detail 0, used to overwrite the voxel at `p`. The
/// chunk holding `p` is created (with ambient voxels) if it was absent.
#[verifier::external_body]
fn chunk_map_set(m: &mut ChunkStore, p: (i32, i32, i32), v: u16)
    ensures
        forall|q: (int, int, int)| #[trigger] voxel_at(*final(m), q) == if q == pt(p) { v } else { voxel_at(*old(m), q) },
        chunk_map_chunks(*final(m)) == chunk_map_chunks(*old(m)).insert(chunk_min(pt(p))),
    no_unwind
{
    let r: &mut u16 = m.map.get_mut_point(0, PointN([p.0, p.1, p.2]));
    *r = v;
}

/// `ChunkMap::fill_extent` at level of detail 0: every point of the box gets `v`; every chunk
/// the indexer lists for the box is created if absent.
#[verifier::external_body]
fn chunk_map_fill(m: &mut ChunkStore, min: (i32, i32, i32), shape: (i32, i32, i32), v: u16)
    requires
        indexable_box(pt(min), pt(shape)),
    ensures
        forall|q: (int, int, int)| #[trigger] voxel_at(*final(m), q)
            == if in_box(pt(min), pt(shape), q) { v } else { voxel_at(*old(m), q) },
        chunk_map_chunks(*final(m)) == chunk_map_chunks(*old(m)) + span(pt(min), pt(shape)),
    no_unwind
{
    m.map.fill_extent(0, &Extent3i::from_min_and_shape(PointN([min.0, min.1, min.2]), PointN([shape.0, shape.1, shape.2])), v);
}

/// `copy_extent` of a whole dense array into level 0 of the map: the array's points take the
/// array's values; every chunk the indexer lists for the array's box is created if absent.
#[verifier::external_body]
fn chunk_map_write_array(m: &mut ChunkStore, a: &Array3x1<u16>)
    requires
        indexable_box(array_extent(*a).0, array_extent(*a).1),
        forall|q: (int, int, int)| #[trigger] array_values(*a).dom().contains(q)
            <==> in_box(array_extent(*a).0, array_extent(*a).1, q),
    ensures
        forall|q: (int, int, int)| #[trigger] voxel_at(*final(m), q)
            == if in_box(array_extent(*a).0, array_extent(*a).1, q) { array_values(*a)[q] } else { voxel_at(*old(m), q) },
        chunk_map_chunks(*final(m)) == chunk_map_chunks(*old(m)) + span(array_extent(*a).0, array_extent(*a).1),
    no_unwind
{
    let extent = *a.extent();
    copy_extent(&extent, a, &mut m.map.lod_view_mut(0));
}

/// `copy_extent` of level 0 of the map over a whole dense array: each point of the array takes
/// the map's voxel there (the ambient 0 where no chunk holds it).
#[verifier::external_body]
fn chunk_map_read_array(m: &ChunkStore, a: &mut Array3x1<u16>)
    requires
        indexable_box(array_extent(*old(a)).0, array_extent(*old(a)).1),
    ensures
        array_extent(*final(a)) == array_extent(*old(a)),
        array_values(*final(a)) == Map::new(
            |q: (int, int, int)| in_box(array_extent(*old(a)).0, array_extent(*old(a)).1, q),
            |q: (int, int, int)| voxel_at(*m, q),
        ),
{
    let extent = *a.extent();
    copy_extent(&extent, &m.map.lod_view(0), a);
}

/// `ChunkMap::visit_occupied_chunks` at level 0: the least points of the chunks the map holds
/// among those the indexer lists for the box, each once.
#[verifier::external_body]
fn chunk_map_occupied(m: &ChunkStore, min: (i32, i32, i32), shape: (i32, i32, i32)) -> (r: Vec<(i32, i32, i32)>)
    requires
        indexable_box(pt(min), pt(shape)),
    ensures
        pts(r@).no_duplicates(),
        forall|c: (int, int, int)| #[trigger] pts(r@).contains(c)
            <==> (chunk_map_chunks(*m).contains(c) && in_span(pt(min), pt(shape), c)),
{
    let mut out: Vec<(i32, i32, i32)> = Vec::new();
    let extent = Extent3i::from_min_and_shape(PointN([min.0, min.1, min.2]), PointN([shape.0, shape.1, shape.2]));
    m.map.visit_occupied_chunks(0, &extent, |chunk| {
        let c = chunk.extent().minimum;
        out.push((c.x(), c.y(), c.z()));
    });
    out
}

/// Whether chunk `c` lies in the box `b` (least point, shape).
pub open spec fn chunk_in_box(b: ((int, int, int), (int, int, int)), c: (int, int, int)) -> bool {
    &&& b.0.0 <= c.0 && c.0 + 16 <= b.0.0 + b.1.0
    &&& b.0.1 <= c.1 && c.1 + 16 <= b.0.1 + b.1.1
    &&& b.0.2 <= c.2 && c.2 + 16 <= b.0.2 + b.1.2
}

/// Whether the corners of chunks `c` and `d`, and the sides of a box spanning both, are `i32`.
pub open spec fn chunk_pair_fits(c: (int, int, int), d: (int, int, int)) -> bool {
    &&& i32::MIN <= c.0 && c.0 + 16 <= i32::MAX && d.0 + 16 - c.0 <= i32::MAX
    &&& i32::MIN <= c.1 && c.1 + 16 <= i32::MAX && d.1 + 16 - c.1 <= i32::MAX
    &&& i32::MIN <= c.2 && c.2 + 16 <= i32::MAX && d.2 + 16 - c.2 <= i32::MAX
}

/// Whether each face of box `b` touches a chunk of `chunks`.
pub open spec fn box_is_tight(chunks: Set<(int, int, int)>, b: ((int, int, int), (int, int, int))) -> bool {
    &&& exists|c: (int, int, int)| #[trigger] chunks.contains(c) && c.0 == b.0.0
    &&& exists|c: (int, int, int)| #[trigger] chunks.contains(c) && c.1 == b.0.1
    &&& exists|c: (int, int, int)| #[trigger] chunks.contains(c) && c.2 == b.0.2
    &&& exists|c: (int, int, int)| #[trigger] chunks.contains(c) && c.0 + 16 == b.0.0 + b.1.0
    &&& exists|c: (int, int, int)| #[trigger] chunks.contains(c) && c.1 + 16 == b.0.1 + b.1.1
    &&& exists|c: (int, int, int)| #[trigger] chunks.contains(c) && c.2 + 16 == b.0.2 + b.1.2
}

/// The box of `i32` triples `e`, as spec triples.
pub open spec fn box_of(e: ((i32, i32, i32), (i32, i32, i32))) -> ((int, int, int), (int, int, int)) {
    (pt(e.0), pt(e.1))
}

/// `ChunkMap::bounding_extent` at level 0: the least box holding every chunk of the map. The
/// map must hold a chunk (the call panics otherwise).
#[verifier::external_body]
fn chunk_map_bounds(m: &ChunkStore) -> (b: ((i32, i32, i32), (i32, i32, i32)))
    requires
        exists|c: (int, int, int)| chunk_map_chunks(*m).contains(c),
        forall|c: (int, int, int), d: (int, int, int)|
            chunk_map_chunks(*m).contains(c) && chunk_map_chunks(*m).contains(d) ==> #[trigger] chunk_pair_fits(c, d),
    ensures
        forall|c: (int, int, int)| #[trigger] chunk_map_chunks(*m).contains(c) ==> chunk_in_box(box_of(b), c),
        box_is_tight(chunk_map_chunks(*m), box_of(b)),
{
    let e = m.map.bounding_extent(0);
    ((e.minimum.x(), e.minimum.y(), e.minimum.z()), (e.shape.x(), e.shape.y(), e.shape.z()))
}

/// The points of a list of `i32` triples.
pub open spec fn pts(s: Seq<(i32, i32, i32)>) -> Seq<(int, int, int)> {
    s.map_values(|c: (i32, i32, i32)| pt(c))
}

} // verus!

verus! {

// ---------------------------------------------------------------------------
// The terrain's voxels.
// ---------------------------------------------------------------------------

/// Half the side of the cube of points a terrain may hold: coordinates lie in
/// `-WORLD_HALF_SIDE .. WORLD_HALF_SIDE`. The chunk map computes the box bounding all its
/// chunks with `i32` sides, so the world's whole width must fit an `i32`: just under 2^31,
/// less a margin of 4096 for padded boxes and super-chunk keys at the edges.
pub const WORLD_HALF_SIDE: i32 = 0x3fff_f000;

/// Whether `p` is a point a terrain may hold.
pub open spec fn in_world(p: (int, int, int)) -> bool {
    &&& -WORLD_HALF_SIDE <= p.0 < WORLD_HALF_SIDE
    &&& -WORLD_HALF_SIDE <= p.1 < WORLD_HALF_SIDE
    &&& -WORLD_HALF_SIDE <= p.2 < WORLD_HALF_SIDE
}

/// Whether the box (least point, shape) lies among the points a terrain may hold.
pub open spec fn world_box(min: (int, int, int), shape: (int, int, int)) -> bool {
    &&& shape.0 >= 0 && shape.1 >= 0 && shape.2 >= 0
    &&& -WORLD_HALF_SIDE <= min.0 && min.0 + shape.0 <= WORLD_HALF_SIDE
    &&& -WORLD_HALF_SIDE <= min.1 && min.1 + shape.1 <= WORLD_HALF_SIDE
    &&& -WORLD_HALF_SIDE <= min.2 && min.2 + shape.2 <= WORLD_HALF_SIDE
}

/// Whether `c` is the least point of a chunk of the terrain's world.
pub open spec fn chunk_ok(c: (int, int, int)) -> bool {
    &&& c.0 % 16 == 0 && -WORLD_HALF_SIDE <= c.0 && c.0 + 16 <= WORLD_HALF_SIDE
    &&& c.1 % 16 == 0 && -WORLD_HALF_SIDE <= c.1 && c.1 + 16 <= WORLD_HALF_SIDE
    &&& c.2 % 16 == 0 && -WORLD_HALF_SIDE <= c.2 && c.2 + 16 <= WORLD_HALF_SIDE
}

proof fn lemma_floor_axis(x: int)
    requires
        -WORLD_HALF_SIDE <= x < WORLD_HALF_SIDE,
    ensures
        chunk_floor(x) % 16 == 0,
        chunk_floor(x) <= x < chunk_floor(x) + 16,
        -WORLD_HALF_SIDE <= chunk_floor(x),
        chunk_floor(x) + 16 <= WORLD_HALF_SIDE,
        chunk_floor(x) / 16 == x / 16,
{
    let q = x / 16;
    assert(x == 16 * q + x % 16);
    assert(chunk_floor(x) == 16 * q);
    assert((16 * q) % 16 == 0) by (nonlinear_arith);
    assert((16 * q) / 16 == q) by (nonlinear_arith);
}

proof fn lemma_span_axis_ok(lo: int, len: int, c: int)
    requires
        len >= 0,
        -WORLD_HALF_SIDE <= lo,
        lo + len <= WORLD_HALF_SIDE,
        span_axis(lo, len, c),
    ensures
        -WORLD_HALF_SIDE <= c,
        c + 16 <= WORLD_HALF_SIDE,
{
    assert(c == 16 * (c / 16) + c % 16);
    assert(lo / 16 >= -WORLD_HALF_SIDE / 16);
    assert((lo + len - 1) / 16 <= (WORLD_HALF_SIDE - 1) / 16);
}

/// Every chunk the indexer lists for a box of the world is a chunk of the world.
proof fn lemma_span_ok(min: (int, int, int), shape: (int, int, int), c: (int, int, int))
    requires
        world_box(min, shape),
        in_span(min, shape, c),
    ensures
        chunk_ok(c),
{
    lemma_span_axis_ok(min.0, shape.0, c.0);
    lemma_span_axis_ok(min.1, shape.1, c.1);
    lemma_span_axis_ok(min.2, shape.2, c.2);
}

/// The voxels of a terrain: a chunked map of material codes (0 for empty), read as 0
/// wherever nothing was written.
pub struct TerrainVoxels {
    store: ChunkStore,
}

impl TerrainVoxels {
    /// The voxel at `p`.
    pub closed spec fn voxel(&self, p: (int, int, int)) -> u16 {
        voxel_at(self.store, p)
    }

    /// The least points of the chunks the map holds.
    pub closed spec fn chunks(&self) -> Set<(int, int, int)> {
        chunk_map_chunks(self.store)
    }

    #[verifier::type_invariant]
    spec fn wf(&self) -> bool {
        forall|c: (int, int, int)| #[trigger] chunk_map_chunks(self.store).contains(c) ==> chunk_ok(c)
    }

    /// An empty map: every voxel is 0 and no chunk is held.
    pub fn new() -> (t: TerrainVoxels)
        ensures
            forall|p: (int, int, int)| #[trigger] t.voxel(p) == 0,
            t.chunks() == Set::<(int, int, int)>::empty(),
    {
        let store = chunk_map_new();
        proof {
            assert(chunk_map_chunks(store) =~= Set::<(int, int, int)>::empty());
        }
        TerrainVoxels { store }
    }

    /// The voxel at `p`.
    pub fn get(&self, p: (i32, i32, i32)) -> (v: u16)
        ensures
            v == self.voxel(pt(p)),
    {
        chunk_map_get(&self.store, p)
    }

    /// Overwrites the voxel at `p`; the chunk holding `p` is created if absent.
    pub fn set(&mut self, p: (i32, i32, i32), v: u16)
        requires
            in_world(pt(p)),
        ensures
            forall|q: (int, int, int)| #[trigger] final(self).voxel(q) == if q == pt(p) { v } else { old(self).voxel(q) },
            final(self).chunks() == old(self).chunks().insert(chunk_min(pt(p))),
    {
        proof {
            use_type_invariant(&*self);
            lemma_floor_axis(p.0 as int);
            lemma_floor_axis(p.1 as int);
            lemma_floor_axis(p.2 as int);
            assert(chunk_ok(chunk_min(pt(p))));
            assert(forall|c: (int, int, int)| chunk_map_chunks(self.store).contains(c) ==> chunk_ok(c));
        }
        chunk_map_set(&mut self.store, p, v);
    }

    /// Sets every voxel of the box to `v`; every chunk the map's indexer lists for the box is
    /// created if absent.
    pub fn fill_box(&mut self, min: (i32, i32, i32), shape: (i32, i32, i32), v: u16)
        requires
            world_box(pt(min), pt(shape)),
        ensures
            forall|q: (int, int, int)| #[trigger] final(self).voxel(q)
                == if in_box(pt(min), pt(shape), q) { v } else { old(self).voxel(q) },
            final(self).chunks() == old(self).chunks() + span(pt(min), pt(shape)),
    {
        proof {
            use_type_invariant(&*self);
            assert forall|c: (int, int, int)| #[trigger] in_span(pt(min), pt(shape), c) implies chunk_ok(c) by {
                lemma_span_ok(pt(min), pt(shape), c);
            }
            assert(forall|c: (int, int, int)| chunk_map_chunks(self.store).contains(c) ==> chunk_ok(c));
        }
        chunk_map_fill(&mut self.store, min, shape, v);
    }

    /// Copies a whole dense array into the map; every chunk the indexer lists for the array's
    /// box is created if absent.
    pub fn write_array(&mut self, a: &VoxelArray)
        requires
            world_box(a.min(), a.shape()),
        ensures
            forall|q: (int, int, int)| #[trigger] final(self).voxel(q)
                == if a.contains(q) { a.at(q) } else { old(self).voxel(q) },
            final(self).chunks() == old(self).chunks() + span(a.min(), a.shape()),
    {
        proof {
            use_type_invariant(&*self);
            use_type_invariant(a);
            assert forall|c: (int, int, int)| #[trigger] in_span(a.min(), a.shape(), c) implies chunk_ok(c) by {
                lemma_span_ok(a.min(), a.shape(), c);
            }
            assert(forall|c: (int, int, int)| chunk_map_chunks(self.store).contains(c) ==> chunk_ok(c));
            assert forall|q: (int, int, int)| #[trigger] array_values(a.arr).dom().contains(q)
                <==> in_box(a.min(), a.shape(), q) by {
                assert(a.values().dom().contains(q) <==> in_box(a.min(), a.shape(), q));
            }
        }
        chunk_map_write_array(&mut self.store, &a.arr);
    }

    /// A dense copy of the box: each point takes the map's voxel there.
    pub fn read_box(&self, min: (i32, i32, i32), shape: (i32, i32, i32)) -> (a: VoxelArray)
        requires
            storable_box(pt(min), pt(shape)),
            indexable_box(pt(min), pt(shape)),
        ensures
            a.min() == pt(min),
            a.shape() == pt(shape),
            forall|q: (int, int, int)| a.contains(q) ==> #[trigger] a.at(q) == self.voxel(q),
    {
        let mut arr = array_fill(min, shape, 0);
        chunk_map_read_array(&self.store, &mut arr);
        VoxelArray { arr }
    }

    /// The least points of the chunks held by the map among those its indexer lists for the
    /// box, each once.
    pub fn occupied_chunks(&self, min: (i32, i32, i32), shape: (i32, i32, i32)) -> (r: Vec<(i32, i32, i32)>)
        requires
            indexable_box(pt(min), pt(shape)),
        ensures
            pts(r@).no_duplicates(),
            forall|c: (int, int, int)| #[trigger] pts(r@).contains(c)
                <==> (self.chunks().contains(c) && in_span(pt(min), pt(shape), c)),
            forall|c: (int, int, int)| #[trigger] pts(r@).contains(c) ==> chunk_ok(c),
    {
        proof {
            use_type_invariant(self);
            assert(forall|c: (int, int, int)| chunk_map_chunks(self.store).contains(c) ==> chunk_ok(c));
        }
        chunk_map_occupied(&self.store, min, shape)
    }

    /// The least box holding every chunk of the map, which must hold one.
    pub fn bounds(&self) -> (b: ((i32, i32, i32), (i32, i32, i32)))
        requires
            exists|c: (int, int, int)| self.chunks().contains(c),
        ensures
            forall|c: (int, int, int)| #[trigger] self.chunks().contains(c) ==> chunk_in_box(box_of(b), c),
            box_is_tight(self.chunks(), box_of(b)),
            forall|c: (int, int, int)| #[trigger] self.chunks().contains(c) ==> chunk_ok(c),
    {
        proof {
            use_type_invariant(self);
            assert forall|c: (int, int, int), d: (int, int, int)|
                chunk_map_chunks(self.store).contains(c) && chunk_map_chunks(self.store).contains(d)
                implies #[trigger] chunk_pair_fits(c, d) by {
                assert(chunk_ok(c));
                assert(chunk_ok(d));
            }
        }
        chunk_map_bounds(&self.store)
    }
}

} // verus!

verus! {

/// Rounds `x / 16` toward negative infinity, as the chunk indexer's arithmetic shift does.
fn floor16(x: i32) -> (r: i32)
    requires
        x > i32::MIN,
    ensures
        r == x / 16,
{
    if x >= 0 {
        x / 16
    } else {
        let r = (x + 1) / 16 - 1;
        proof {
            let n = -(x + 1);
            assert(n >= 0);
            assert(x / 16 * 16 <= x < x / 16 * 16 + 16) by (nonlinear_arith);
            assert(n / 16 * 16 <= n < n / 16 * 16 + 16) by (nonlinear_arith)
                requires n >= 0;
        }
        r
    }
}

/// Whether chunk index `a` comes before chunk index `b` in the indexer's order: by z, then y,
/// then x.
pub open spec fn index_before(a: (int, int, int), b: (int, int, int)) -> bool {
    a.2 < b.2 || (a.2 == b.2 && (a.1 < b.1 || (a.1 == b.1 && a.0 < b.0)))
}

/// The chunk index of a chunk's least point.
pub open spec fn chunk_index(c: (int, int, int)) -> (int, int, int) {
    (c.0 / 16, c.1 / 16, c.2 / 16)
}

/// The least points of the chunks the indexer lists for a box, in the indexer's order
/// (`ChunkIndexer::chunk_mins_for_extent`: the chunks from that of the box's least point to
/// that of its greatest point, x fastest).
pub fn chunk_mins_for_box(min: (i32, i32, i32), shape: (i32, i32, i32)) -> (r: Vec<(i32, i32, i32)>)
    requires
        world_box(pt(min), pt(shape)) || (shape.0 == 3 && shape.1 == 3 && shape.2 == 3
            && -WORLD_HALF_SIDE - 1 <= min.0 && min.0 + 3 <= WORLD_HALF_SIDE + 1
            && -WORLD_HALF_SIDE - 1 <= min.1 && min.1 + 3 <= WORLD_HALF_SIDE + 1
            && -WORLD_HALF_SIDE - 1 <= min.2 && min.2 + 3 <= WORLD_HALF_SIDE + 1),
    ensures
        pts(r@).no_duplicates(),
        forall|c: (int, int, int)| #[trigger] pts(r@).contains(c) <==> in_span(pt(min), pt(shape), c),
        forall|i: int, j: int| 0 <= i < j < r@.len()
            ==> index_before(chunk_index(#[trigger] pts(r@)[i]), chunk_index(#[trigger] pts(r@)[j])),
{
    let x0 = floor16(min.0);
    let y0 = floor16(min.1);
    let z0 = floor16(min.2);
    let x1 = floor16(min.0 + shape.0 - 1);
    let y1 = floor16(min.1 + shape.1 - 1);
    let z1 = floor16(min.2 + shape.2 - 1);
    let ghost lo = (x0 as int, y0 as int, z0 as int);
    let ghost hi = (x1 as int, y1 as int, z1 as int);
    proof {
        assert forall|c: (int, int, int)| #[trigger] in_span(pt(min), pt(shape), c) <==>
            (c.0 % 16 == 0 && c.1 % 16 == 0 && c.2 % 16 == 0
            && lo.0 <= c.0 / 16 <= hi.0 && lo.1 <= c.1 / 16 <= hi.1 && lo.2 <= c.2 / 16 <= hi.2) by {}
    }
    let mut r: Vec<(i32, i32, i32)> = Vec::new();
    let mut z = z0;
    while z <= z1
        invariant
            z0 <= z <= z1 + 1 || (z == z0 && z1 < z0),
            -0x0400_0000 <= z0 && z1 <= 0x0400_0000,
            -0x0400_0000 <= y0 && y1 <= 0x0400_0000,
            -0x0400_0000 <= x0 && x1 <= 0x0400_0000,
            lo == (x0 as int, y0 as int, z0 as int),
            hi == (x1 as int, y1 as int, z1 as int),
            forall|c: (int, int, int)| #[trigger] in_span(pt(min), pt(shape), c) <==>
                (c.0 % 16 == 0 && c.1 % 16 == 0 && c.2 % 16 == 0
                && lo.0 <= c.0 / 16 <= hi.0 && lo.1 <= c.1 / 16 <= hi.1 && lo.2 <= c.2 / 16 <= hi.2),
            pts(r@).no_duplicates(),
            forall|i: int, j: int| 0 <= i < j < r@.len()
                ==> index_before(chunk_index(#[trigger] pts(r@)[i]), chunk_index(#[trigger] pts(r@)[j])),
            forall|c: (int, int, int)| #[trigger] pts(r@).contains(c) <==>
                in_span(pt(min), pt(shape), c) && index_before(chunk_index(c), (x0 as int, y0 as int, z as int)),
        decreases z1 + 1 - z,
    {
        let mut y = y0;
        while y <= y1
            invariant
                z0 <= z <= z1,
                y0 <= y <= y1 + 1 || (y == y0 && y1 < y0),
                -0x0400_0000 <= z0 && z1 <= 0x0400_0000,
                -0x0400_0000 <= y0 && y1 <= 0x0400_0000,
                -0x0400_0000 <= x0 && x1 <= 0x0400_0000,
                lo == (x0 as int, y0 as int, z0 as int),
                hi == (x1 as int, y1 as int, z1 as int),
                forall|c: (int, int, int)| #[trigger] in_span(pt(min), pt(shape), c) <==>
                    (c.0 % 16 == 0 && c.1 % 16 == 0 && c.2 % 16 == 0
                    && lo.0 <= c.0 / 16 <= hi.0 && lo.1 <= c.1 / 16 <= hi.1 && lo.2 <= c.2 / 16 <= hi.2),
                pts(r@).no_duplicates(),
                forall|i: int, j: int| 0 <= i < j < r@.len()
                    ==> index_before(chunk_index(#[trigger] pts(r@)[i]), chunk_index(#[trigger] pts(r@)[j])),
                forall|c: (int, int, int)| #[trigger] pts(r@).contains(c) <==>
                    in_span(pt(min), pt(shape), c) && index_before(chunk_index(c), (x0 as int, y as int, z as int)),
            decreases y1 + 1 - y,
        {
            let mut x = x0;
            while x <= x1
                invariant
                    z0 <= z <= z1,
                    y0 <= y <= y1,
                    x0 <= x <= x1 + 1 || (x == x0 && x1 < x0),
                    -0x0400_0000 <= z0 && z1 <= 0x0400_0000,
                    -0x0400_0000 <= y0 && y1 <= 0x0400_0000,
                    -0x0400_0000 <= x0 && x1 <= 0x0400_0000,
                    lo == (x0 as int, y0 as int, z0 as int),
                    hi == (x1 as int, y1 as int, z1 as int),
                    forall|c: (int, int, int)| #[trigger] in_span(pt(min), pt(shape), c) <==>
                        (c.0 % 16 == 0 && c.1 % 16 == 0 && c.2 % 16 == 0
                        && lo.0 <= c.0 / 16 <= hi.0 && lo.1 <= c.1 / 16 <= hi.1 && lo.2 <= c.2 / 16 <= hi.2),
                    pts(r@).no_duplicates(),
                    forall|i: int, j: int| 0 <= i < j < r@.len()
                        ==> index_before(chunk_index(#[trigger] pts(r@)[i]), chunk_index(#[trigger] pts(r@)[j])),
                    forall|c: (int, int, int)| #[trigger] pts(r@).contains(c) <==>
                        in_span(pt(min), pt(shape), c) && index_before(chunk_index(c), (x as int, y as int, z as int)),
                decreases x1 + 1 - x,
            {
                let c = (x * 16, y * 16, z * 16);
                let ghost r0 = r@;
                proof {
                    assert((x as int * 16) % 16 == 0 && (x as int * 16) / 16 == x) by (nonlinear_arith);
                    assert((y as int * 16) % 16 == 0 && (y as int * 16) / 16 == y) by (nonlinear_arith);
                    assert((z as int * 16) % 16 == 0 && (z as int * 16) / 16 == z) by (nonlinear_arith);
                    assert(chunk_index(pt(c)) == (x as int, y as int, z as int));
                    assert(in_span(pt(min), pt(shape), pt(c)));
                    assert(!pts(r0).contains(pt(c)));
                }
                r.push(c);
                proof {
                    assert(pts(r@) =~= pts(r0).push(pt(c)));
                    assert forall|i: int, j: int| 0 <= i < j < r@.len() implies
                        index_before(chunk_index(#[trigger] pts(r@)[i]), chunk_index(#[trigger] pts(r@)[j])) by {
                        assert(pts(r@)[i] == pts(r0)[i]);
                        assert(pts(r0).contains(pts(r0)[i]));
                        if j < r0.len() {
                            assert(pts(r@)[j] == pts(r0)[j]);
                        }
                    }
                    assert forall|d: (int, int, int)| #[trigger] pts(r@).contains(d) <==>
                        in_span(pt(min), pt(shape), d) && index_before(chunk_index(d), (x as int + 1, y as int, z as int)) by {
                        if d == pt(c) {
                            assert(pts(r@)[r0.len() as int] == d);
                        } else {
                            if pts(r@).contains(d) {
                                let i = choose|i: int| 0 <= i < pts(r@).len() && pts(r@)[i] == d;
                                assert(pts(r0)[i] == d);
                            }
                            if pts(r0).contains(d) {
                                let i = choose|i: int| 0 <= i < pts(r0).len() && pts(r0)[i] == d;
                                assert(pts(r@)[i] == d);
                            }
                            if in_span(pt(min), pt(shape), d) && index_before(chunk_index(d), (x as int + 1, y as int, z as int)) {
                                if chunk_index(d) == (x as int, y as int, z as int) {
                                    assert(d.0 == 16 * (d.0 / 16) + d.0 % 16);
                                    assert(d.1 == 16 * (d.1 / 16) + d.1 % 16);
                                    assert(d.2 == 16 * (d.2 / 16) + d.2 % 16);
                                    assert(d == pt(c));
                                }
                            }
                        }
                    }
                }
                x = x + 1;
            }
            y = y + 1;
        }
        z = z + 1;
    }
    r
}

} // verus!

verus! {

/// `Array3x1::clone`: an array with the same extent and values.
#[verifier::external_body]
fn array_clone(a: &Array3x1<u16>) -> (r: Array3x1<u16>)
    ensures
        array_extent(r) == array_extent(*a),
        array_values(r) == array_values(*a),
{
    a.clone()
}

impl Clone for VoxelArray {
    /// A copy of the box and its voxels.
    fn clone(&self) -> (r: Self)
        ensures
            r.min() == self.min(),
            r.shape() == self.shape(),
            r.values() == self.values(),
    {
        proof {
            use_type_invariant(self);
        }
        let arr = array_clone(&self.arr);
        proof {
            assert(forall|p: (int, int, int)| #[trigger] self.values().dom().contains(p)
                <==> in_box(self.min(), self.shape(), p));
            assert(self.values() == array_values(arr));
            assert(self.min() == array_extent(arr).0 && self.shape() == array_extent(arr).1);
            assert(forall|p: (int, int, int)| #[trigger] array_values(arr).dom().contains(p)
                <==> in_box(array_extent(arr).0, array_extent(arr).1, p));
        }
        VoxelArray { arr }
    }
}

} // verus!
