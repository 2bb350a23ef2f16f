//! Bookkeeping of the terrain's render chunks: per-chunk state, and the index of chunks
//! grouped by super chunk (256 voxels wide) that the mesh scheduler walks.

use crate::voxels::{pt, pts};
use vstd::prelude::*;

verus! {

/// The render state of one terrain chunk.
#[derive(Debug, Clone, Copy, PartialEq, Eq, Structural)]
pub struct TerrainChunk {
    /// Its voxels changed since its mesh was last built.
    pub dirty: bool,
    /// A mesh job for it is running.
    pub building: bool,
    /// The dynamic mesh it is drawn with, once one was added.
    pub mesh: Option<usize>,
}

impl TerrainChunk {
    /// A chunk that is clean, not building and has no mesh.
    pub fn new() -> (c: TerrainChunk)
        ensures
            c == (TerrainChunk { dirty: false, building: false, mesh: None }),
    {
        TerrainChunk { dirty: false, building: false, mesh: None }
    }
}

/// Side of a super chunk.
pub const SUPER_CHUNK_SIZE: i32 = 256;

/// Coordinates of chunk keys stay within this bound: the world's chunks and the chunks one
/// voxel around it, with room for super-chunk keys (which may lie 512 below a key) in `i32`.
pub const CHUNK_KEY_BOUND: i32 = 0x3fff_f100;

/// Whether `c` is a chunk key the bookkeeping can hold.
pub open spec fn key_ok(c: (int, int, int)) -> bool {
    &&& -CHUNK_KEY_BOUND <= c.0 <= CHUNK_KEY_BOUND
    &&& -CHUNK_KEY_BOUND <= c.1 <= CHUNK_KEY_BOUND
    &&& -CHUNK_KEY_BOUND <= c.2 <= CHUNK_KEY_BOUND
}

/// Division rounding toward zero, as Rust's `/` on integers.
pub open spec fn trunc_div(a: int, b: int) -> int {
    if a >= 0 {
        a / b
    } else {
        -((-a) / b)
    }
}

/// The super-chunk coordinate of chunk coordinate `c`: the quotient by 256 rounded toward
/// zero, lowered by one for negative `c`, times 256. For negative multiples of 256 this is
/// one super chunk below the one holding `c`.
pub open spec fn super_axis(c: int) -> int {
    SUPER_CHUNK_SIZE * (if c < 0 { trunc_div(c, 256) - 1 } else { trunc_div(c, 256) })
}

/// The key of the super chunk a chunk is filed under.
pub open spec fn super_key(c: (int, int, int)) -> (int, int, int) {
    (super_axis(c.0), super_axis(c.1), super_axis(c.2))
}

proof fn lemma_super_axis(c: int)
    requires
        -CHUNK_KEY_BOUND <= c <= CHUNK_KEY_BOUND,
    ensures
        super_axis(c) <= c <= super_axis(c) + 256,
        c >= 0 ==> c < super_axis(c) + 256,
        super_axis(c) % 256 == 0,
        -CHUNK_KEY_BOUND - 512 <= super_axis(c) <= CHUNK_KEY_BOUND,
{
    if c >= 0 {
        assert(c == 256 * (c / 256) + c % 256);
        assert((256 * (c / 256)) % 256 == 0) by (nonlinear_arith);
    } else {
        let q = (-c) / 256;
        assert(-c == 256 * q + (-c) % 256);
        assert(super_axis(c) == 256 * (-q - 1));
        assert((256 * (-q - 1)) % 256 == 0) by (nonlinear_arith);
    }
}

/// A chunk lies in the 256-wide range of its super chunk, or, when a coordinate is a negative
/// multiple of 256, right at the range's upper end.
pub proof fn lemma_super_chunk_range(c: (int, int, int))
    requires
        key_ok(c),
    ensures
        super_key(c).0 % 256 == 0 && super_key(c).1 % 256 == 0 && super_key(c).2 % 256 == 0,
        super_key(c).0 <= c.0 <= super_key(c).0 + 256,
        super_key(c).1 <= c.1 <= super_key(c).1 + 256,
        super_key(c).2 <= c.2 <= super_key(c).2 + 256,
        c.0 == super_key(c).0 + 256 ==> c.0 < 0 && c.0 % 256 == 0,
        c.1 == super_key(c).1 + 256 ==> c.1 < 0 && c.1 % 256 == 0,
        c.2 == super_key(c).2 + 256 ==> c.2 < 0 && c.2 % 256 == 0,
{
    lemma_super_axis(c.0);
    lemma_super_axis(c.1);
    lemma_super_axis(c.2);
}

/// The key of the super chunk that `chunk` is filed under (see `super_key`).
pub fn get_super_chunk_key(chunk: (i32, i32, i32)) -> (k: (i32, i32, i32))
    requires
        key_ok(pt(chunk)),
    ensures
        pt(k) == super_key(pt(chunk)),
{
    proof {
        lemma_super_axis(chunk.0 as int);
        lemma_super_axis(chunk.1 as int);
        lemma_super_axis(chunk.2 as int);
    }
    let p = (chunk.0 / SUPER_CHUNK_SIZE, chunk.1 / SUPER_CHUNK_SIZE, chunk.2 / SUPER_CHUNK_SIZE);
    (
        SUPER_CHUNK_SIZE * (if chunk.0 < 0 { p.0 - 1 } else { p.0 }),
        SUPER_CHUNK_SIZE * (if chunk.1 < 0 { p.1 - 1 } else { p.1 }),
        SUPER_CHUNK_SIZE * (if chunk.2 < 0 { p.2 - 1 } else { p.2 }),
    )
}

} // verus!

verus! {

// ---------------------------------------------------------------------------
// The table of chunk states, an association list keyed by chunk.
// ---------------------------------------------------------------------------

/// The map that an association list of chunk states stands for.
pub open spec fn entry_map(s: Seq<((i32, i32, i32), TerrainChunk)>) -> Map<(int, int, int), TerrainChunk>
    decreases s.len(),
{
    if s.len() == 0 {
        Map::empty()
    } else {
        entry_map(s.drop_last()).insert(pt(s.last().0), s.last().1)
    }
}

/// Whether no key occurs twice in the list.
pub open spec fn keys_distinct(s: Seq<((i32, i32, i32), TerrainChunk)>) -> bool {
    forall|i: int, j: int| 0 <= i < s.len() && 0 <= j < s.len() && i != j ==> #[trigger] s[i].0 != #[trigger] s[j].0
}

proof fn lemma_entry_map_dom(s: Seq<((i32, i32, i32), TerrainChunk)>, k: (int, int, int))
    ensures
        entry_map(s).dom().contains(k) <==> exists|i: int| 0 <= i < s.len() && #[trigger] pt(s[i].0) == k,
    decreases s.len(),
{
    if s.len() > 0 {
        lemma_entry_map_dom(s.drop_last(), k);
        if entry_map(s.drop_last()).dom().contains(k) {
            let i = choose|i: int| 0 <= i < s.drop_last().len() && #[trigger] pt(s.drop_last()[i].0) == k;
            assert(pt(s[i].0) == k);
        }
        if exists|i: int| 0 <= i < s.len() && #[trigger] pt(s[i].0) == k {
            let i = choose|i: int| 0 <= i < s.len() && #[trigger] pt(s[i].0) == k;
            if i < s.len() - 1 {
                assert(pt(s.drop_last()[i].0) == k);
            }
        }
    }
}

proof fn lemma_entry_map_at(s: Seq<((i32, i32, i32), TerrainChunk)>, i: int)
    requires
        keys_distinct(s),
        0 <= i < s.len(),
    ensures
        entry_map(s).dom().contains(pt(s[i].0)),
        entry_map(s)[pt(s[i].0)] == s[i].1,
    decreases s.len(),
{
    if i < s.len() - 1 {
        let t = s.drop_last();
        assert(keys_distinct(t)) by {
            assert forall|a: int, b: int| 0 <= a < t.len() && 0 <= b < t.len() && a != b implies #[trigger] t[a].0 != #[trigger] t[b].0 by {
                assert(t[a] == s[a] && t[b] == s[b]);
            }
        }
        lemma_entry_map_at(t, i);
        assert(t[i] == s[i]);
        assert(s.last().0 != s[i].0);
    }
}

proof fn lemma_entry_map_update(s: Seq<((i32, i32, i32), TerrainChunk)>, i: int, v: TerrainChunk)
    requires
        keys_distinct(s),
        0 <= i < s.len(),
    ensures
        keys_distinct(s.update(i, (s[i].0, v))),
        entry_map(s.update(i, (s[i].0, v))) == entry_map(s).insert(pt(s[i].0), v),
    decreases s.len(),
{
    let u = s.update(i, (s[i].0, v));
    assert(keys_distinct(u)) by {
        assert forall|a: int, b: int| 0 <= a < u.len() && 0 <= b < u.len() && a != b implies #[trigger] u[a].0 != #[trigger] u[b].0 by {
            assert(u[a].0 == s[a].0 && u[b].0 == s[b].0);
        }
    }
    let t = s.drop_last();
    assert(keys_distinct(t)) by {
        assert forall|a: int, b: int| 0 <= a < t.len() && 0 <= b < t.len() && a != b implies #[trigger] t[a].0 != #[trigger] t[b].0 by {
            assert(t[a] == s[a] && t[b] == s[b]);
        }
    }
    if i == s.len() - 1 {
        assert(u.drop_last() =~= t);
        lemma_entry_map_dom(t, pt(s[i].0));
        assert(entry_map(u) =~= entry_map(s).insert(pt(s[i].0), v));
    } else {
        lemma_entry_map_update(t, i, v);
        assert(u.drop_last() =~= t.update(i, (t[i].0, v)));
        assert(s.last().0 != s[i].0);
        assert(pt(s.last().0) != pt(s[i].0));
        assert(entry_map(u) =~= entry_map(s).insert(pt(s[i].0), v));
    }
}

/// The states of the terrain's chunks, keyed by the chunk's least point.
pub struct ChunkTable {
    entries: Vec<((i32, i32, i32), TerrainChunk)>,
}

impl ChunkTable {
    /// The state of each chunk in the table.
    pub closed spec fn view(&self) -> Map<(int, int, int), TerrainChunk> {
        entry_map(self.entries@)
    }

    #[verifier::type_invariant]
    spec fn wf(&self) -> bool {
        keys_distinct(self.entries@)
    }

    /// An empty table.
    pub fn new() -> (t: ChunkTable)
        ensures
            t@ == Map::<(int, int, int), TerrainChunk>::empty(),
    {
        let t = ChunkTable { entries: Vec::new() };
        assert(t@ =~= Map::<(int, int, int), TerrainChunk>::empty());
        t
    }

    /// The position of `k` in the list, if present.
    fn find(&self, k: (i32, i32, i32)) -> (r: Option<usize>)
        ensures
            match r {
                Some(i) => i < self.entries@.len() && self.entries@[i as int].0 == k,
                None => !self@.dom().contains(pt(k)),
            },
    {
        let mut i: usize = 0;
        while i < self.entries.len()
            invariant
                i <= self.entries@.len(),
                forall|j: int| 0 <= j < i ==> self.entries@[j].0 != k,
            decreases self.entries@.len() - i,
        {
            let e = self.entries[i].0;
            if e.0 == k.0 && e.1 == k.1 && e.2 == k.2 {
                return Some(i);
            }
            i = i + 1;
        }
        proof {
            lemma_entry_map_dom(self.entries@, pt(k));
            if self@.dom().contains(pt(k)) {
                let j = choose|j: int| 0 <= j < self.entries@.len() && #[trigger] pt(self.entries@[j].0) == pt(k);
                assert(self.entries@[j].0 == k);
            }
        }
        None
    }

    /// The state of chunk `k`, if the table has it.
    pub fn get(&self, k: (i32, i32, i32)) -> (r: Option<TerrainChunk>)
        ensures
            r == if self@.dom().contains(pt(k)) { Some(self@[pt(k)]) } else { None },
    {
        proof {
            use_type_invariant(self);
        }
        match self.find(k) {
            Some(i) => {
                proof {
                    lemma_entry_map_at(self.entries@, i as int);
                }
                Some(self.entries[i].1)
            },
            None => None,
        }
    }

    /// Sets the state of chunk `k`, adding it if absent.
    pub fn set(&mut self, k: (i32, i32, i32), c: TerrainChunk)
        ensures
            final(self)@ == old(self)@.insert(pt(k), c),
    {
        proof {
            use_type_invariant(&*self);
        }
        match self.find(k) {
            Some(i) => {
                proof {
                    lemma_entry_map_update(self.entries@, i as int, c);
                }
                let mut entries = Vec::new();
                std::mem::swap(&mut entries, &mut self.entries);
                entries.set(i, (k, c));
                self.entries = entries;
            },
            None => {
                proof {
                    lemma_entry_map_dom(self.entries@, pt(k));
                }
                let mut entries = Vec::new();
                std::mem::swap(&mut entries, &mut self.entries);
                let ghost before = entries@;
                entries.push((k, c));
                proof {
                    assert(entries@.drop_last() =~= before);
                    assert forall|a: int, b: int| 0 <= a < entries@.len() && 0 <= b < entries@.len() && a != b
                        implies #[trigger] entries@[a].0 != #[trigger] entries@[b].0 by {
                        if a < before.len() && b < before.len() {
                            assert(entries@[a] == before[a] && entries@[b] == before[b]);
                        } else if a < before.len() {
                            assert(pt(before[a].0) != pt(k));
                        } else {
                            assert(pt(before[b].0) != pt(k));
                        }
                    }
                }
                self.entries = entries;
            },
        }
    }

    /// The meshes the table's chunks are drawn with, one per chunk that has one.
    pub fn meshes(&self) -> (r: Vec<usize>)
        ensures
            forall|h: usize| r@.contains(h) <==> exists|k: (int, int, int)|
                #[trigger] self@.dom().contains(k) && self@[k].mesh == Some(h),
    {
        proof {
            use_type_invariant(self);
        }
        let mut r: Vec<usize> = Vec::new();
        let mut i: usize = 0;
        while i < self.entries.len()
            invariant
                i <= self.entries@.len(),
                keys_distinct(self.entries@),
                forall|h: usize| r@.contains(h) <==> exists|j: int| 0 <= j < i && #[trigger] self.entries@[j].1.mesh == Some(h),
            decreases self.entries@.len() - i,
        {
            let ghost r0 = r@;
            if let Some(h) = self.entries[i].1.mesh {
                r.push(h);
                proof {
                    assert forall|g: usize| r@.contains(g) <==> exists|j: int| 0 <= j < i + 1 && #[trigger] self.entries@[j].1.mesh == Some(g) by {
                        if r@.contains(g) && !r0.contains(g) {
                            assert(r@[r0.len() as int] == h);
                            assert(self.entries@[i as int].1.mesh == Some(g)) by {
                                let x = choose|x: int| 0 <= x < r@.len() && r@[x] == g;
                                if x < r0.len() {
                                    assert(r0[x] == g);
                                }
                            }
                        }
                        if !r@.contains(g) {
                            assert forall|j: int| 0 <= j < i + 1 implies #[trigger] self.entries@[j].1.mesh != Some(g) by {
                                if j < i {
                                    assert(!r0.contains(g)) by {
                                        if r0.contains(g) {
                                            let x = choose|x: int| 0 <= x < r0.len() && r0[x] == g;
                                            assert(r@[x] == g);
                                        }
                                    }
                                } else {
                                    assert(r@[r0.len() as int] == h);
                                }
                            }
                        }
                        if r0.contains(g) {
                            let x = choose|x: int| 0 <= x < r0.len() && r0[x] == g;
                            assert(r@[x] == g);
                        }
                    }
                }
            }
            i = i + 1;
        }
        proof {
            assert forall|h: usize| r@.contains(h) <==> exists|k: (int, int, int)|
                #[trigger] self@.dom().contains(k) && self@[k].mesh == Some(h) by {
                if r@.contains(h) {
                    let j = choose|j: int| 0 <= j < self.entries@.len() && #[trigger] self.entries@[j].1.mesh == Some(h);
                    lemma_entry_map_at(self.entries@, j);
                }
                if exists|k: (int, int, int)| #[trigger] self@.dom().contains(k) && self@[k].mesh == Some(h) {
                    let k = choose|k: (int, int, int)| #[trigger] self@.dom().contains(k) && self@[k].mesh == Some(h);
                    lemma_entry_map_dom(self.entries@, k);
                    let j = choose|j: int| 0 <= j < self.entries@.len() && #[trigger] pt(self.entries@[j].0) == k;
                    lemma_entry_map_at(self.entries@, j);
                }
            }
        }
        r
    }
}

} // verus!

verus! {

// ---------------------------------------------------------------------------
// The super-chunk index.
// ---------------------------------------------------------------------------

/// A group of the index: a super-chunk key and the chunks filed under it.
pub type SuperGroup = ((i32, i32, i32), Vec<(i32, i32, i32)>);

/// Whether chunk `c` is filed in group `g`.
pub open spec fn group_has(groups: Seq<SuperGroup>, g: int, c: (int, int, int)) -> bool {
    0 <= g < groups.len() && pts(groups[g].1@).contains(c)
}

/// Whether chunk `c` is filed in some group.
pub open spec fn listed_in(groups: Seq<SuperGroup>, c: (int, int, int)) -> bool {
    exists|g: int| #[trigger] group_has(groups, g, c)
}

/// Whether chunk `c` lies within 256 voxels of `eye` along x and along y.
pub open spec fn near_eye(c: (int, int, int), eye: (int, int, int)) -> bool {
    &&& -256 <= c.0 - eye.0 <= 256
    &&& -256 <= c.1 - eye.1 <= 256
}

/// The chunks, grouped by super chunk, that the mesh scheduler considers.
pub struct SuperChunkIndex {
    groups: Vec<SuperGroup>,
}

impl SuperChunkIndex {
    /// The chunks filed in the index.
    pub closed spec fn listed(&self) -> Set<(int, int, int)> {
        Set::new(|c: (int, int, int)| listed_in(self.groups@, c))
    }

    #[verifier::type_invariant]
    spec fn wf(&self) -> bool {
        &&& forall|g: int, h: int| 0 <= g < self.groups@.len() && 0 <= h < self.groups@.len() && g != h
            ==> #[trigger] self.groups@[g].0 != #[trigger] self.groups@[h].0
        &&& forall|g: int| 0 <= g < self.groups@.len() ==> #[trigger] self.groups@[g].1@.len() > 0
            && pts(self.groups@[g].1@).no_duplicates()
        &&& forall|g: int, c: (int, int, int)| #[trigger] group_has(self.groups@, g, c)
            ==> key_ok(c) && super_key(c) == pt(self.groups@[g].0)
    }

    /// An empty index.
    pub fn new() -> (s: SuperChunkIndex)
        ensures
            s.listed() == Set::<(int, int, int)>::empty(),
    {
        let s = SuperChunkIndex { groups: Vec::new() };
        assert(s.listed() =~= Set::<(int, int, int)>::empty());
        s
    }

    /// Empties the index.
    pub fn clear(&mut self)
        ensures
            final(self).listed() == Set::<(int, int, int)>::empty(),
    {
        let mut groups: Vec<SuperGroup> = Vec::new();
        std::mem::swap(&mut groups, &mut self.groups);
        assert(self.listed() =~= Set::<(int, int, int)>::empty());
    }

    /// The position of the group with key `sk`, if any.
    fn find_group(&self, sk: (i32, i32, i32)) -> (r: Option<usize>)
        ensures
            match r {
                Some(g) => g < self.groups@.len() && self.groups@[g as int].0 == sk,
                None => forall|g: int| 0 <= g < self.groups@.len() ==> #[trigger] self.groups@[g].0 != sk,
            },
    {
        let mut g: usize = 0;
        while g < self.groups.len()
            invariant
                g <= self.groups@.len(),
                forall|h: int| 0 <= h < g ==> #[trigger] self.groups@[h].0 != sk,
            decreases self.groups@.len() - g,
        {
            let k = self.groups[g].0;
            if k.0 == sk.0 && k.1 == sk.1 && k.2 == sk.2 {
                return Some(g);
            }
            g = g + 1;
        }
        None
    }

    /// Files chunk `c` under its super chunk.
    pub fn insert(&mut self, c: (i32, i32, i32))
        requires
            key_ok(pt(c)),
        ensures
            final(self).listed() == old(self).listed().insert(pt(c)),
    {
        proof {
            use_type_invariant(&*self);
        }
        let sk = get_super_chunk_key(c);
        let ghost old_groups = self.groups@;
        match self.find_group(sk) {
            Some(g) => {
                let pos = position_of(&self.groups[g].1, c);
                if let Some(i) = pos {
                    proof {
                        assert(pts(old_groups[g as int].1@)[i as int] == pt(c));
                        assert(group_has(old_groups, g as int, pt(c)));
                        assert(self.listed() =~= self.listed().insert(pt(c)));
                    }
                    return;
                }
                let mut groups: Vec<SuperGroup> = Vec::new();
                std::mem::swap(&mut groups, &mut self.groups);
                let (key, mut members) = groups.remove(g);
                let ghost old_members = members@;
                members.push(c);
                groups.insert(g, (key, members));
                proof {
                    let ng = groups@;
                    assert(pts(members@) =~= pts(old_members).push(pt(c)));
                    assert forall|h: int| 0 <= h < ng.len() && h != g implies #[trigger] ng[h] == old_groups[h] by {
                        if h < g {
                        } else {
                        }
                    }
                    assert(ng[g as int].1@ == members@);
                    assert(pts(members@).no_duplicates()) by {
                        assert(!pts(old_members).contains(pt(c)));
                    }
                    assert forall|x: (int, int, int)| #[trigger] listed_in(ng, x)
                        implies listed_in(old_groups, x) || x == pt(c) by {
                        let h = choose|h: int| #[trigger] group_has(ng, h, x);
                        if h != g {
                            assert(group_has(old_groups, h, x));
                        } else if x != pt(c) {
                            assert(pts(old_members).contains(x)) by {
                                let i = choose|i: int| 0 <= i < pts(members@).len() && pts(members@)[i] == x;
                                assert(i < old_members.len());
                                assert(pts(old_members)[i] == x);
                            }
                            assert(group_has(old_groups, g as int, x));
                        }
                    }
                    assert forall|x: (int, int, int)| #[trigger] listed_in(old_groups, x) || x == pt(c)
                        implies listed_in(ng, x) by {
                        if x == pt(c) {
                            assert(pts(members@)[old_members.len() as int] == x);
                            assert(group_has(ng, g as int, x));
                        } else {
                            let h = choose|h: int| #[trigger] group_has(old_groups, h, x);
                            if h != g {
                                assert(group_has(ng, h, x));
                            } else {
                                let i = choose|i: int| 0 <= i < pts(old_members).len() && pts(old_members)[i] == x;
                                assert(pts(members@)[i] == x);
                                assert(group_has(ng, g as int, x));
                            }
                        }
                    }
                    assert forall|h: int, x: (int, int, int)| #[trigger] group_has(ng, h, x)
                        implies key_ok(x) && super_key(x) == pt(ng[h].0) by {
                        if h != g {
                            assert(group_has(old_groups, h, x));
                        } else if x != pt(c) {
                            let i = choose|i: int| 0 <= i < pts(members@).len() && pts(members@)[i] == x;
                            assert(pts(old_members)[i] == x);
                            assert(group_has(old_groups, g as int, x));
                        }
                    }
                }
                let ghost ng = groups@;
                self.groups = groups;
                proof {
                    assert(self.groups@ == ng);
                    assert forall|x: (int, int, int)| #[trigger] self.listed().contains(x) <==> old(self).listed().insert(pt(c)).contains(x) by {
                        assert(self.listed().contains(x) <==> listed_in(ng, x));
                        assert(old(self).listed().contains(x) <==> listed_in(old_groups, x));
                    }
                    assert(self.listed() =~= old(self).listed().insert(pt(c)));
                }
            },
            None => {
                let mut groups: Vec<SuperGroup> = Vec::new();
                std::mem::swap(&mut groups, &mut self.groups);
                let members = vec![c];
                groups.push((sk, members));
                proof {
                    let ng = groups@;
                    let last = old_groups.len() as int;
                    assert(pts(members@) =~= seq![pt(c)]);
                    assert forall|h: int| 0 <= h < last implies #[trigger] ng[h] == old_groups[h] by {}
                    assert forall|x: (int, int, int)| #[trigger] listed_in(ng, x)
                        implies listed_in(old_groups, x) || x == pt(c) by {
                        let h = choose|h: int| #[trigger] group_has(ng, h, x);
                        if h < last {
                            assert(group_has(old_groups, h, x));
                        } else {
                            assert(pts(members@).contains(x));
                        }
                    }
                    assert forall|x: (int, int, int)| #[trigger] listed_in(old_groups, x) || x == pt(c)
                        implies listed_in(ng, x) by {
                        if x == pt(c) {
                            assert(pts(members@)[0] == x);
                            assert(group_has(ng, last, x));
                        } else {
                            let h = choose|h: int| #[trigger] group_has(old_groups, h, x);
                            assert(group_has(ng, h, x));
                        }
                    }
                    assert forall|h: int, x: (int, int, int)| #[trigger] group_has(ng, h, x)
                        implies key_ok(x) && super_key(x) == pt(ng[h].0) by {
                        if h < last {
                            assert(group_has(old_groups, h, x));
                        } else {
                            assert(pts(members@).contains(x));
                            let i = choose|i: int| 0 <= i < pts(members@).len() && pts(members@)[i] == x;
                            assert(i == 0);
                        }
                    }
                }
                let ghost ng = groups@;
                self.groups = groups;
                proof {
                    assert forall|x: (int, int, int)| #[trigger] self.listed().contains(x) <==> old(self).listed().insert(pt(c)).contains(x) by {
                        assert(self.listed().contains(x) <==> listed_in(ng, x));
                        assert(old(self).listed().contains(x) <==> listed_in(old_groups, x));
                    }
                    assert(self.listed() =~= old(self).listed().insert(pt(c)));
                }
            },
        }
    }
}

impl SuperChunkIndex {
    /// Removes chunk `c` from the index; a super chunk left without chunks is dropped.
    pub fn remove(&mut self, c: (i32, i32, i32))
        requires
            key_ok(pt(c)),
        ensures
            final(self).listed() == old(self).listed().remove(pt(c)),
    {
        proof {
            use_type_invariant(&*self);
        }
        let sk = get_super_chunk_key(c);
        let ghost old_groups = self.groups@;
        // Only the group keyed by the super chunk of `c` can hold `c`.
        proof {
            assert forall|h: int| #[trigger] group_has(old_groups, h, pt(c)) implies old_groups[h].0 == sk by {
                assert(super_key(pt(c)) == pt(old_groups[h].0));
            }
        }
        let g = match self.find_group(sk) {
            Some(g) => g,
            None => {
                proof {
                    assert(!listed_in(old_groups, pt(c)));
                    assert(self.listed() =~= old(self).listed().remove(pt(c)));
                }
                return;
            },
        };
        let j = match position_of(&self.groups[g].1, c) {
            Some(j) => j,
            None => {
                proof {
                    assert forall|h: int| !#[trigger] group_has(old_groups, h, pt(c)) by {
                        if group_has(old_groups, h, pt(c)) {
                            assert(h == g);
                        }
                    }
                    assert(!listed_in(old_groups, pt(c)));
                    assert(self.listed() =~= old(self).listed().remove(pt(c)));
                }
                return;
            },
        };
        let mut groups: Vec<SuperGroup> = Vec::new();
        std::mem::swap(&mut groups, &mut self.groups);
        let (key, mut members) = groups.remove(g);
        let ghost old_members = members@;
        members.remove(j);
        proof {
            let om = pts(old_members);
            let nm = pts(members@);
            assert(om.no_duplicates());
            assert(om[j as int] == pt(c));
            assert forall|x: (int, int, int)| #[trigger] nm.contains(x) <==> om.contains(x) && x != pt(c) by {
                if nm.contains(x) {
                    let i = choose|i: int| 0 <= i < nm.len() && nm[i] == x;
                    if i < j {
                        assert(om[i] == x);
                    } else {
                        assert(om[i + 1] == x);
                    }
                }
                if om.contains(x) && x != pt(c) {
                    let i = choose|i: int| 0 <= i < om.len() && om[i] == x;
                    if i < j {
                        assert(nm[i] == x);
                    } else {
                        assert(i != j);
                        assert(nm[i - 1] == x);
                    }
                }
            }
            assert(nm.no_duplicates()) by {
                assert forall|a: int, b: int| 0 <= a < nm.len() && 0 <= b < nm.len() && a != b implies nm[a] != nm[b] by {
                    let a1 = if a < j { a } else { a + 1 };
                    let b1 = if b < j { b } else { b + 1 };
                    assert(nm[a] == om[a1] && nm[b] == om[b1]);
                }
            }
        }
        if members.len() > 0 {
            groups.insert(g, (key, members));
            proof {
                let ng = groups@;
                assert forall|h: int| 0 <= h < ng.len() && h != g implies #[trigger] ng[h] == old_groups[h] by {}
                assert forall|x: (int, int, int)| #[trigger] listed_in(ng, x) <==> listed_in(old_groups, x) && x != pt(c) by {
                    if listed_in(ng, x) {
                        let h = choose|h: int| #[trigger] group_has(ng, h, x);
                        if h == g {
                            assert(pts(old_members).contains(x));
                            assert(group_has(old_groups, h, x));
                        } else {
                            assert(group_has(old_groups, h, x));
                            assert(x != pt(c)) by {
                                if x == pt(c) {
                                    assert(old_groups[h].0 == sk);
                                }
                            }
                        }
                    }
                    if listed_in(old_groups, x) && x != pt(c) {
                        let h = choose|h: int| #[trigger] group_has(old_groups, h, x);
                        assert(group_has(ng, h, x));
                    }
                }
                assert forall|h: int, x: (int, int, int)| #[trigger] group_has(ng, h, x)
                    implies key_ok(x) && super_key(x) == pt(ng[h].0) by {
                    assert(group_has(old_groups, h, x));
                }
            }
        } else {
            proof {
                let ng = groups@;
                assert forall|h: int| 0 <= h < ng.len() implies #[trigger] ng[h] == old_groups[if h < g { h } else { h + 1 }] by {}
                assert(pts(old_members).len() == 1);
                assert forall|x: (int, int, int)| #[trigger] listed_in(ng, x) <==> listed_in(old_groups, x) && x != pt(c) by {
                    if listed_in(ng, x) {
                        let h = choose|h: int| #[trigger] group_has(ng, h, x);
                        let h1 = if h < g { h } else { h + 1 };
                        assert(group_has(old_groups, h1, x));
                        assert(x != pt(c)) by {
                            if x == pt(c) {
                                assert(old_groups[h1].0 == sk);
                            }
                        }
                    }
                    if listed_in(old_groups, x) && x != pt(c) {
                        let h = choose|h: int| #[trigger] group_has(old_groups, h, x);
                        if h == g {
                            assert(pts(old_members)[0] == pt(c));
                            assert(false);
                        } else if h < g {
                            assert(group_has(ng, h, x));
                        } else {
                            assert(group_has(ng, h - 1, x));
                        }
                    }
                }
                assert forall|a: int, b: int| 0 <= a < ng.len() && 0 <= b < ng.len() && a != b
                    implies #[trigger] ng[a].0 != #[trigger] ng[b].0 by {
                    let a1 = if a < g { a } else { a + 1 };
                    let b1 = if b < g { b } else { b + 1 };
                    assert(ng[a] == old_groups[a1] && ng[b] == old_groups[b1]);
                }
                assert forall|h: int, x: (int, int, int)| #[trigger] group_has(ng, h, x)
                    implies key_ok(x) && super_key(x) == pt(ng[h].0) by {
                    let h1 = if h < g { h } else { h + 1 };
                    assert(group_has(old_groups, h1, x));
                }
            }
        }
        let ghost ng = groups@;
        self.groups = groups;
        proof {
            assert forall|x: (int, int, int)| #[trigger] self.listed().contains(x) <==> old(self).listed().remove(pt(c)).contains(x) by {
                assert(self.listed().contains(x) <==> listed_in(ng, x));
                assert(old(self).listed().contains(x) <==> listed_in(old_groups, x));
            }
            assert(self.listed() =~= old(self).listed().remove(pt(c)));
        }
    }
}

/// Whether chunk `x` is filed in one of the first `g` groups.
pub open spec fn listed_before(groups: Seq<SuperGroup>, g: int, x: (int, int, int)) -> bool {
    exists|h: int| 0 <= h < g && #[trigger] group_has(groups, h, x)
}

/// Whether `a - b` lies in `-d ..= d`.
fn within(a: i32, b: i32, d: i64) -> (r: bool)
    requires
        0 <= d <= 0x1_0000_0000,
    ensures
        r == (-d <= a - b <= d),
{
    let diff = a as i64 - b as i64;
    -d <= diff && diff <= d
}

impl SuperChunkIndex {
    /// The filed chunks within 256 voxels of `eye` along x and y, each once. Super chunks
    /// whose center lies more than 512 voxels away along x or y are skipped whole.
    pub fn near(&self, eye: (i32, i32, i32)) -> (r: Vec<(i32, i32, i32)>)
        ensures
            pts(r@).no_duplicates(),
            forall|c: (int, int, int)| #[trigger] pts(r@).contains(c)
                <==> (self.listed().contains(c) && near_eye(c, pt(eye))),
    {
        proof {
            use_type_invariant(self);
        }
        let ghost gs = self.groups@;
        let mut r: Vec<(i32, i32, i32)> = Vec::new();
        let mut g: usize = 0;
        while g < self.groups.len()
            invariant
                gs == self.groups@,
                g <= gs.len(),
                forall|a: int, b: int| 0 <= a < gs.len() && 0 <= b < gs.len() && a != b ==> #[trigger] gs[a].0 != #[trigger] gs[b].0,
                forall|a: int| 0 <= a < gs.len() ==> #[trigger] pts(gs[a].1@).no_duplicates(),
                forall|a: int| 0 <= a < gs.len() ==> #[trigger] gs[a].1@.len() > 0,
                forall|a: int, x: (int, int, int)| #[trigger] group_has(gs, a, x) ==> key_ok(x) && super_key(x) == pt(gs[a].0),
                pts(r@).no_duplicates(),
                forall|x: (int, int, int)| #[trigger] pts(r@).contains(x) <==> listed_before(gs, g as int, x) && near_eye(x, pt(eye)),
            decreases gs.len() - g,
        {
            let sk = self.groups[g].0;
            let members = &self.groups[g].1;
            proof {
                assert(gs[g as int].1@.len() > 0);
                assert(pts(members@)[0] == pt(members@[0]));
                assert(group_has(gs, g as int, pt(members@[0])));
                lemma_super_axis(members@[0].0 as int);
                lemma_super_axis(members@[0].1 as int);
                // A chunk filed under `sk` lies within 128 voxels of the super chunk's center.
                assert forall|x: (int, int, int)| #[trigger] group_has(gs, g as int, x) implies
                    sk.0 + 128 - 128 <= x.0 + 128 && x.0 <= sk.0 + 256 && sk.1 <= x.1 && x.1 <= sk.1 + 256 by {
                    lemma_super_axis(x.0);
                    lemma_super_axis(x.1);
                }
            }
            if within(sk.0 + 128, eye.0, 512) && within(sk.1 + 128, eye.1, 512) {
                let mut j: usize = 0;
                while j < members.len()
                    invariant
                        gs == self.groups@,
                        g < gs.len(),
                        *members == gs[g as int].1,
                        j <= members@.len(),
                        forall|a: int, b: int| 0 <= a < gs.len() && 0 <= b < gs.len() && a != b ==> #[trigger] gs[a].0 != #[trigger] gs[b].0,
                        forall|a: int| 0 <= a < gs.len() ==> #[trigger] pts(gs[a].1@).no_duplicates(),
                        forall|a: int, x: (int, int, int)| #[trigger] group_has(gs, a, x) ==> key_ok(x) && super_key(x) == pt(gs[a].0),
                        pts(r@).no_duplicates(),
                        forall|x: (int, int, int)| #[trigger] pts(r@).contains(x) <==> (listed_before(gs, g as int, x)
                            || pts(members@.take(j as int)).contains(x)) && near_eye(x, pt(eye)),
                    decreases members@.len() - j,
                {
                    let c = members[j];
                    let ghost r0 = r@;
                    proof {
                        assert(pts(members@)[j as int] == pt(c));
                        assert(pts(gs[g as int].1@).no_duplicates());
                        assert(group_has(gs, g as int, pt(c)));
                        assert(pts(members@.take(j as int + 1)) =~= pts(members@.take(j as int)).push(pt(c)));
                    }
                    if within(c.0, eye.0, 256) && within(c.1, eye.1, 256) {
                        r.push(c);
                        proof {
                            assert(pts(r@) =~= pts(r0).push(pt(c)));
                            assert(!pts(r0).contains(pt(c))) by {
                                if pts(r0).contains(pt(c)) {
                                    if listed_before(gs, g as int, pt(c)) {
                                        let h = choose|h: int| 0 <= h < g && #[trigger] group_has(gs, h, pt(c));
                                        assert(gs[h].0 == gs[g as int].0);
                                    } else {
                                        let i = choose|i: int| 0 <= i < pts(members@.take(j as int)).len()
                                            && pts(members@.take(j as int))[i] == pt(c);
                                        assert(pts(members@)[i] == pt(c));
                                        assert(i != j);
                                    }
                                }
                            }
                        }
                    }
                    proof {
                        assert forall|x: (int, int, int)| #[trigger] pts(r@).contains(x) <==> (listed_before(gs, g as int, x)
                            || pts(members@.take(j as int + 1)).contains(x)) && near_eye(x, pt(eye)) by {
                            if x == pt(c) {
                                if pts(r@).contains(x) && !pts(r0).contains(x) {
                                    assert(pts(members@.take(j as int + 1))[j as int] == x);
                                }
                                if pts(members@.take(j as int + 1)).contains(x) && near_eye(x, pt(eye)) && !pts(r0).contains(x) {
                                    assert(pts(r@)[r0.len() as int] == x);
                                }
                            } else {
                                if pts(members@.take(j as int + 1)).contains(x) {
                                    let t1 = pts(members@.take(j as int + 1));
                                    let i = choose|i: int| 0 <= i < t1.len() && t1[i] == x;
                                    assert(i < j);
                                    assert(pts(members@.take(j as int))[i] == x);
                                }
                                if pts(members@.take(j as int)).contains(x) {
                                    let t0 = pts(members@.take(j as int));
                                    let i = choose|i: int| 0 <= i < t0.len() && t0[i] == x;
                                    assert(pts(members@.take(j as int + 1))[i] == x);
                                }
                                if pts(r@).contains(x) {
                                    let i = choose|i: int| 0 <= i < pts(r@).len() && pts(r@)[i] == x;
                                    assert(i < r0.len());
                                    assert(pts(r0)[i] == x);
                                }
                                if pts(r0).contains(x) {
                                    let i = choose|i: int| 0 <= i < pts(r0).len() && pts(r0)[i] == x;
                                    assert(pts(r@)[i] == x);
                                }
                            }
                        }
                    }
                    j = j + 1;
                }
                proof {
                    assert(members@.take(members@.len() as int) =~= members@);
                    assert forall|x: (int, int, int)| #[trigger] pts(r@).contains(x) <==> listed_before(gs, g as int + 1, x)
                        && near_eye(x, pt(eye)) by {
                        if listed_before(gs, g as int + 1, x) && !listed_before(gs, g as int, x) {
                            let h = choose|h: int| 0 <= h < g + 1 && #[trigger] group_has(gs, h, x);
                            assert(h == g);
                        }
                        if pts(members@).contains(x) {
                            assert(group_has(gs, g as int, x));
                        }
                        if listed_before(gs, g as int, x) {
                            let h = choose|h: int| 0 <= h < g && #[trigger] group_has(gs, h, x);
                            assert(0 <= h < g + 1 && group_has(gs, h, x));
                        }
                    }
                }
            } else {
                proof {
                    assert forall|x: (int, int, int)| #[trigger] pts(r@).contains(x) <==> listed_before(gs, g as int + 1, x)
                        && near_eye(x, pt(eye)) by {
                        if listed_before(gs, g as int + 1, x) && !listed_before(gs, g as int, x) && near_eye(x, pt(eye)) {
                            let h = choose|h: int| 0 <= h < g + 1 && #[trigger] group_has(gs, h, x);
                            assert(h == g);
                            assert(false);
                        }
                        if listed_before(gs, g as int, x) {
                            let h = choose|h: int| 0 <= h < g && #[trigger] group_has(gs, h, x);
                            assert(0 <= h < g + 1 && group_has(gs, h, x));
                        }
                    }
                }
            }
            g = g + 1;
        }
        proof {
            assert forall|c: (int, int, int)| #[trigger] pts(r@).contains(c)
                <==> (self.listed().contains(c) && near_eye(c, pt(eye))) by {
                if listed_in(gs, c) {
                    let h = choose|h: int| #[trigger] group_has(gs, h, c);
                    assert(0 <= h < gs.len() && group_has(gs, h, c));
                }
                if listed_before(gs, gs.len() as int, c) {
                    let h = choose|h: int| 0 <= h < gs.len() && #[trigger] group_has(gs, h, c);
                    assert(group_has(gs, h, c));
                }
            }
        }
        r
    }
}

/// The position of `c` in `v`, if it occurs.
fn position_of(v: &Vec<(i32, i32, i32)>, c: (i32, i32, i32)) -> (r: Option<usize>)
    ensures
        match r {
            Some(i) => i < v@.len() && v@[i as int] == c,
            None => !pts(v@).contains(pt(c)),
        },
{
    let mut i: usize = 0;
    while i < v.len()
        invariant
            i <= v@.len(),
            forall|j: int| 0 <= j < i ==> #[trigger] v@[j] != c,
        decreases v@.len() - i,
    {
        let e = v[i];
        if e.0 == c.0 && e.1 == c.1 && e.2 == c.2 {
            return Some(i);
        }
        i = i + 1;
    }
    proof {
        if pts(v@).contains(pt(c)) {
            let j = choose|j: int| 0 <= j < pts(v@).len() && pts(v@)[j] == pt(c);
            assert(v@[j] == c);
        }
    }
    None
}

} // verus!

verus! {

/// The state of chunk `k` in `states`, or a fresh chunk if it has none.
pub open spec fn state_or_new(states: Map<(int, int, int), TerrainChunk>, k: (int, int, int)) -> TerrainChunk {
    if states.dom().contains(k) {
        states[k]
    } else {
        TerrainChunk { dirty: false, building: false, mesh: None }
    }
}

/// `states` with every chunk of `keys` marked dirty, chunks absent from `states` being added
/// fresh and dirty.
pub open spec fn mark_dirty(
    states: Map<(int, int, int), TerrainChunk>,
    keys: Set<(int, int, int)>,
) -> Map<(int, int, int), TerrainChunk> {
    Map::new(
        |k: (int, int, int)| states.dom().contains(k) || keys.contains(k),
        |k: (int, int, int)| if keys.contains(k) {
            TerrainChunk { dirty: true, ..state_or_new(states, k) }
        } else {
            states[k]
        },
    )
}

/// Marking a set dirty and then one more key is marking the larger set dirty.
pub proof fn lemma_mark_dirty_insert(
    states: Map<(int, int, int), TerrainChunk>,
    keys: Set<(int, int, int)>,
    k: (int, int, int),
)
    ensures
        mark_dirty(mark_dirty(states, keys), set![k]) == mark_dirty(states, keys.insert(k)),
{
    assert(mark_dirty(mark_dirty(states, keys), set![k]) =~= mark_dirty(states, keys.insert(k)));
}

/// The chunks of `states` that have a mesh job running.
pub open spec fn building_chunks(states: Map<(int, int, int), TerrainChunk>) -> Set<(int, int, int)> {
    Set::new(|k: (int, int, int)| states.dom().contains(k) && states[k].building)
}

/// Marking chunks dirty starts and stops no mesh job: the chunks with a job running stay
/// the same.
pub proof fn lemma_mark_dirty_keeps_building(
    states: Map<(int, int, int), TerrainChunk>,
    keys: Set<(int, int, int)>,
)
    ensures
        building_chunks(mark_dirty(states, keys)) == building_chunks(states),
{
    assert(building_chunks(mark_dirty(states, keys)) =~= building_chunks(states));
}

/// Marking no chunk dirty changes nothing.
pub proof fn lemma_mark_dirty_empty(states: Map<(int, int, int), TerrainChunk>)
    ensures
        mark_dirty(states, Set::empty()) == states,
{
    assert(mark_dirty(states, Set::empty()) =~= states);
}

} // verus!
