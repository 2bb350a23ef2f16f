//! The state of the game's side panel and the decisions its controls lead to.

use crate::terrain::RayCastResult;
use vstd::prelude::*;
use vstd::string::StringExecFns;

verus! {

/// Whether spawning stops after one placement or goes on.
#[derive(Debug, Clone, Copy, PartialEq, Eq, Structural)]
pub enum SpawnMode {
    OneShot,
    MultiShot,
}

impl SpawnMode {
    /// Applies the "Multi spawn mode" checkbox, now showing `multi_spawn` and `changed` if the
    /// user just toggled it: switching multi-spawn off stops spawning.
    pub fn ui(&mut self, multi_spawn: bool, changed: bool, spawning: &mut bool)
        ensures
            *final(self) == if multi_spawn { SpawnMode::MultiShot } else { SpawnMode::OneShot },
            *final(spawning) == if !multi_spawn && changed { false } else { *old(spawning) },
    {
        if !multi_spawn && changed {
            *spawning = false;
        }
        *self = if multi_spawn { SpawnMode::MultiShot } else { SpawnMode::OneShot };
    }
}

/// The kinds of units that can be spawned.
#[derive(Debug, Clone, Copy, PartialEq, Eq, Hash, Structural)]
pub enum UnitType {
    Container1,
    Container2,
    BlueIcosphere,
}

impl UnitType {
    /// The name shown for the unit type.
    pub fn to_string(&self) -> (s: String)
        ensures
            s@ == match *self {
                UnitType::Container1 => "Container 1"@,
                UnitType::Container2 => "Container 2"@,
                UnitType::BlueIcosphere => "Blue icosphere"@,
            },
    {
        match self {
            UnitType::Container1 => String::from_str("Container 1"),
            UnitType::Container2 => String::from_str("Container 2"),
            UnitType::BlueIcosphere => String::from_str("Blue icosphere"),
        }
    }
}

/// The kinds of dynamic objects.
#[derive(Debug, Clone, Copy, PartialEq, Eq, Hash, Structural)]
pub enum DynObjectType {
    Container1,
    Container2,
    BlueIcosphere,
}

/// How many times `t` occurs in `s`.
pub open spec fn occurrences(s: Seq<UnitType>, t: UnitType) -> nat
    decreases s.len(),
{
    if s.len() == 0 {
        0
    } else {
        occurrences(s.drop_last(), t) + if s.last() == t { 1nat } else { 0nat }
    }
}

/// The count a list of (type, count) entries gives type `t`.
pub open spec fn entry_count(v: Seq<(UnitType, u32)>, t: UnitType) -> nat
    decreases v.len(),
{
    if v.len() == 0 {
        0
    } else {
        entry_count(v.drop_last(), t) + if v.last().0 == t { v.last().1 as nat } else { 0nat }
    }
}

/// Whether each type has at most one entry, with a positive count.
pub open spec fn entries_ok(v: Seq<(UnitType, u32)>) -> bool {
    &&& forall|i: int, j: int| 0 <= i < j < v.len() ==> #[trigger] v[i].0 != #[trigger] v[j].0
    &&& forall|i: int| 0 <= i < v.len() ==> #[trigger] v[i].1 > 0
}

proof fn lemma_entry_count_update(v: Seq<(UnitType, u32)>, j: int, c: u32, t: UnitType)
    requires
        0 <= j < v.len(),
    ensures
        entry_count(v.update(j, (v[j].0, c)), t) == entry_count(v, t) - (if v[j].0 == t { v[j].1 as int } else { 0 })
            + (if v[j].0 == t { c as int } else { 0 }),
    decreases v.len(),
{
    let u = v.update(j, (v[j].0, c));
    if j < v.len() - 1 {
        assert(u.drop_last() =~= v.drop_last().update(j, (v[j].0, c)));
        lemma_entry_count_update(v.drop_last(), j, c, t);
    } else {
        assert(u.drop_last() =~= v.drop_last());
    }
}

/// The unit part of the side panel.
pub struct UnitUiState {
    pub spawning: bool,
    pub spawn_mode: SpawnMode,
    pub object_type: UnitType,
    pub selecting: bool,
    pub selected_count: u32,
    /// How many selected units there are of each type that has any, each type once.
    pub selected: Vec<(UnitType, u32)>,
}

impl UnitUiState {
    /// Nothing spawning or selected; one-shot spawning of the first container.
    pub fn new() -> (s: UnitUiState)
        ensures
            !s.spawning,
            s.spawn_mode == SpawnMode::OneShot,
            s.object_type == UnitType::Container1,
            !s.selecting,
            s.selected_count == 0,
            s.selected@.len() == 0,
    {
        UnitUiState {
            spawning: false,
            spawn_mode: SpawnMode::OneShot,
            object_type: UnitType::Container1,
            selecting: false,
            selected_count: 0,
            selected: Vec::new(),
        }
    }

    /// A drag selection happens when a left drag just finished and nothing is being spawned
    /// or edited.
    pub fn update_selecting(&mut self, drag_just_finished: bool, tile_spawn_active: bool, terrain_edit_active: bool)
        ensures
            final(self).selecting == (drag_just_finished && !old(self).spawning && !tile_spawn_active && !terrain_edit_active),
            final(self).spawning == old(self).spawning,
            final(self).spawn_mode == old(self).spawn_mode,
            final(self).object_type == old(self).object_type,
            final(self).selected_count == old(self).selected_count,
            final(self).selected@ == old(self).selected@,
    {
        self.selecting = drag_just_finished && !self.spawning && !tile_spawn_active && !terrain_edit_active;
    }

    /// Picking a unit type in the panel starts spawning it.
    pub fn choose_unit(&mut self, t: UnitType)
        ensures
            final(self).object_type == t,
            final(self).spawning,
            final(self).spawn_mode == old(self).spawn_mode,
            final(self).selecting == old(self).selecting,
            final(self).selected_count == old(self).selected_count,
            final(self).selected@ == old(self).selected@,
    {
        self.object_type = t;
        self.spawning = true;
    }

    /// A left click while spawning places a unit of the chosen type (returned); in one-shot
    /// mode spawning then stops. Without spawning nothing is placed.
    pub fn spawn_click(&mut self) -> (r: Option<UnitType>)
        ensures
            r == if old(self).spawning { Some(old(self).object_type) } else { None },
            final(self).spawning == (old(self).spawning && old(self).spawn_mode != SpawnMode::OneShot),
            final(self).spawn_mode == old(self).spawn_mode,
            final(self).object_type == old(self).object_type,
            final(self).selecting == old(self).selecting,
            final(self).selected_count == old(self).selected_count,
            final(self).selected@ == old(self).selected@,
    {
        if self.spawning {
            let t = self.object_type;
            if self.spawn_mode == SpawnMode::OneShot {
                self.spawning = false;
            }
            Some(t)
        } else {
            None
        }
    }

    /// After a drag selection, counts the selected units (`selected_units` lists their types):
    /// the total and the count of each type. Outside a selection nothing changes.
    pub fn count_selected(&mut self, selected_units: &Vec<UnitType>)
        requires
            selected_units@.len() <= u32::MAX,
        ensures
            !old(self).selecting ==> final(self).selected_count == old(self).selected_count
                && final(self).selected@ == old(self).selected@,
            old(self).selecting ==> {
                &&& final(self).selected_count == selected_units@.len()
                &&& entries_ok(final(self).selected@)
                &&& forall|t: UnitType| #[trigger] entry_count(final(self).selected@, t) == occurrences(selected_units@, t)
            },
            final(self).selecting == old(self).selecting,
            final(self).spawning == old(self).spawning,
            final(self).spawn_mode == old(self).spawn_mode,
            final(self).object_type == old(self).object_type,
    {
        if !self.selecting {
            return;
        }
        let mut count: u32 = 0;
        let mut sel: Vec<(UnitType, u32)> = Vec::new();
        let mut i: usize = 0;
        while i < selected_units.len()
            invariant
                i <= selected_units@.len() <= u32::MAX,
                count == i,
                entries_ok(sel@),
                forall|t: UnitType| #[trigger] entry_count(sel@, t) == occurrences(selected_units@.take(i as int), t),
                forall|j: int| 0 <= j < sel@.len() ==> #[trigger] sel@[j].1 <= i,
            decreases selected_units@.len() - i,
        {
            let t = selected_units[i];
            proof {
                assert(selected_units@.take(i + 1).drop_last() =~= selected_units@.take(i as int));
            }
            let mut j: usize = 0;
            while j < sel.len() && sel[j].0 != t
                invariant
                    j <= sel@.len(),
                    forall|k: int| 0 <= k < j ==> #[trigger] sel@[k].0 != t,
                decreases sel@.len() - j,
            {
                j = j + 1;
            }
            let ghost s0 = sel@;
            proof {
                assert(selected_units@.take(i + 1).last() == t);
                assert(entries_ok(s0));
            }
            if j < sel.len() {
                let c = sel[j].1;
                proof {
                    assert(c <= i);
                }
                sel.set(j, (t, c + 1));
                proof {
                    assert(sel@ == s0.update(j as int, (s0[j as int].0, (c + 1) as u32)));
                    assert forall|u: UnitType| #[trigger] entry_count(sel@, u) == occurrences(selected_units@.take(i + 1), u) by {
                        lemma_entry_count_update(s0, j as int, (c + 1) as u32, u);
                        assert(entry_count(s0, u) == occurrences(selected_units@.take(i as int), u));
                    }
                    assert forall|a: int, b: int| 0 <= a < b < sel@.len() implies #[trigger] sel@[a].0 != #[trigger] sel@[b].0 by {
                        assert(sel@[a].0 == s0[a].0 && sel@[b].0 == s0[b].0);
                        assert(s0[a].0 != s0[b].0);
                    }
                    assert forall|a: int| 0 <= a < sel@.len() implies #[trigger] sel@[a].1 > 0 && sel@[a].1 <= i + 1 by {
                        if a != j {
                            assert(sel@[a] == s0[a]);
                        }
                    }
                }
            } else {
                sel.push((t, 1));
                proof {
                    assert(sel@.drop_last() =~= s0);
                    assert forall|u: UnitType| #[trigger] entry_count(sel@, u) == occurrences(selected_units@.take(i + 1), u) by {
                        assert(entry_count(s0, u) == occurrences(selected_units@.take(i as int), u));
                    }
                    assert forall|a: int, b: int| 0 <= a < b < sel@.len() implies #[trigger] sel@[a].0 != #[trigger] sel@[b].0 by {
                        if b < s0.len() {
                            assert(sel@[a] == s0[a] && sel@[b] == s0[b]);
                            assert(s0[a].0 != s0[b].0);
                        } else {
                            assert(sel@[a] == s0[a]);
                        }
                    }
                    assert forall|a: int| 0 <= a < sel@.len() implies #[trigger] sel@[a].1 > 0 && sel@[a].1 <= i + 1 by {
                        if a < s0.len() {
                            assert(sel@[a] == s0[a]);
                        }
                    }
                }
            }
            count = count + 1;
            i = i + 1;
        }
        proof {
            assert(selected_units@.take(selected_units@.len() as int) =~= selected_units@);
        }
        self.selected_count = count;
        self.selected = sel;
    }
}

/// The tile-spawning part of the side panel.
pub struct TileSpawnUiState {
    pub active: bool,
    pub mode: SpawnMode,
    pub tileset: String,
    pub tile: String,
}

impl TileSpawnUiState {
    /// Not spawning; one-shot spawning of the "Bilding" tile of the "Base" tileset.
    pub fn new() -> (s: TileSpawnUiState)
        ensures
            !s.active,
            s.mode == SpawnMode::OneShot,
            s.tileset@ == "Base"@,
            s.tile@ == "Bilding"@,
    {
        TileSpawnUiState {
            active: false,
            mode: SpawnMode::OneShot,
            tileset: String::from_str("Base"),
            tile: String::from_str("Bilding"),
        }
    }

    /// Picking a tile in the panel starts spawning it.
    pub fn select_tile(&mut self, tileset: String, tile: String)
        ensures
            final(self).active,
            final(self).mode == old(self).mode,
            final(self).tileset@ == tileset@,
            final(self).tile@ == tile@,
    {
        self.tileset = tileset;
        self.tile = tile;
        self.active = true;
    }
}

/// What the environment panel asks the game to do.
#[allow(inconsistent_fields)]
pub enum EnvUiCmd {
    /// Load tile `tile_name` of `tileset_name` onto the editing platform (empty name: a new tile).
    StartEditTile { tileset_name: String, tile_name: String },
    /// Save the platform as tile `tile_name`, added to `tileset_name` if it is a new tile.
    SaveEditedTile { tileset_name: Option<String>, tile_name: String },
    /// Leave tile editing.
    FinishEditTile,
    /// Build a new terrain as the reset panel describes it.
    ResetTerrain(TerrainResetUiState),
}

/// The tile-editing part of the side panel.
pub struct TileEditUiState {
    pub active: bool,
    pub new_tile: bool,
    pub tileset: String,
    pub tile: String,
}

/// The terrain-editing part of the side panel.
pub struct TerrainEditUiState {
    pub active: bool,
    pub material: String,
}

impl TileEditUiState {
    /// Not editing.
    pub fn new() -> (s: TileEditUiState)
        ensures
            !s.active,
            !s.new_tile,
            s.tileset@.len() == 0,
            s.tile@.len() == 0,
    {
        TileEditUiState { active: false, new_tile: false, tileset: String::new(), tile: String::new() }
    }

    /// Starts editing tile `tile` of `tileset` (a new tile if `new_tile`, then with an empty
    /// name); terrain editing is switched on.
    pub fn start_edit(&mut self, terrain_edit: &mut TerrainEditUiState, tileset: String, tile: String, new_tile: bool) -> (cmd: EnvUiCmd)
        ensures
            final(self).active,
            final(self).new_tile == new_tile,
            final(self).tileset@ == tileset@,
            new_tile ==> final(self).tile@.len() == 0,
            !new_tile ==> final(self).tile@ == tile@,
            final(terrain_edit).active,
            final(terrain_edit).material@ == old(terrain_edit).material@,
            cmd matches EnvUiCmd::StartEditTile { tileset_name, tile_name }
                && tileset_name@ == tileset@ && tile_name@ == final(self).tile@,
    {
        let name = if new_tile { String::new() } else { tile };
        self.active = true;
        self.new_tile = new_tile;
        self.tileset = tileset.clone();
        self.tile = name.clone();
        terrain_edit.active = true;
        EnvUiCmd::StartEditTile { tileset_name: tileset, tile_name: name }
    }

    /// The save command for the tile being edited, or `None` when it has no name yet.
    pub fn save_command(&self) -> (cmd: Option<EnvUiCmd>)
        ensures
            match cmd {
                None => self.tile@.len() == 0,
                Some(EnvUiCmd::SaveEditedTile { tileset_name, tile_name }) => {
                    &&& self.tile@.len() != 0
                    &&& tile_name@ == self.tile@
                    &&& match tileset_name {
                        Some(n) => self.new_tile && n@ == self.tileset@,
                        None => !self.new_tile,
                    }
                },
                Some(_) => false,
            },
    {
        if self.tile.as_str().is_empty() {
            None
        } else {
            let tileset_name = if self.new_tile { Some(self.tileset.clone()) } else { None };
            Some(EnvUiCmd::SaveEditedTile { tileset_name, tile_name: self.tile.clone() })
        }
    }

    /// Leaves tile editing.
    pub fn finish(&mut self) -> (cmd: EnvUiCmd)
        ensures
            !final(self).active,
            !final(self).new_tile,
            final(self).tileset@.len() == 0,
            final(self).tile@.len() == 0,
            cmd is FinishEditTile,
    {
        self.active = false;
        self.new_tile = false;
        self.tileset = String::new();
        self.tile = String::new();
        EnvUiCmd::FinishEditTile
    }

    /// After a save: a successful one ends editing (the finish command is returned); a failed
    /// one keeps editing.
    pub fn save_result(&mut self, saved: bool) -> (cmd: Option<EnvUiCmd>)
        ensures
            saved ==> !final(self).active && !final(self).new_tile && final(self).tileset@.len() == 0
                && final(self).tile@.len() == 0 && (cmd matches Some(EnvUiCmd::FinishEditTile)),
            !saved ==> cmd is None && final(self).active == old(self).active && final(self).new_tile == old(self).new_tile
                && final(self).tileset@ == old(self).tileset@ && final(self).tile@ == old(self).tile@,
    {
        if saved {
            Some(self.finish())
        } else {
            None
        }
    }
}

/// The first position of `name` in `names`.
pub open spec fn first_index(names: Seq<String>, name: Seq<char>) -> int
    recommends
        exists|i: int| 0 <= i < names.len() && names[i]@ == name,
{
    choose|i: int| 0 <= i < names.len() && names[i]@ == name && forall|j: int| 0 <= j < i ==> names[j]@ != name
}

impl TerrainEditUiState {
    /// Not editing; building with "basic_tile".
    pub fn new() -> (s: TerrainEditUiState)
        ensures
            !s.active,
            s.material@ == "basic_tile"@,
    {
        TerrainEditUiState { active: false, material: String::from_str("basic_tile") }
    }

    /// The material radio list while editing: the material becomes the one clicked
    /// (`choice`), else stays the entry the current material first matches.
    pub fn ui(&mut self, materials: &Vec<String>, choice: Option<usize>)
        requires
            old(self).active ==> exists|i: int| 0 <= i < materials@.len() && materials@[i]@ == old(self).material@,
            choice matches Some(i) ==> i < materials@.len(),
        ensures
            final(self).active == old(self).active,
            !old(self).active ==> final(self).material@ == old(self).material@,
            old(self).active ==> final(self).material@ == match choice {
                Some(i) => materials@[i as int]@,
                None => materials@[first_index(materials@, old(self).material@)]@,
            },
    {
        if !self.active {
            return;
        }
        let mut index: usize = 0;
        while index < materials.len() && materials[index] != self.material
            invariant
                index <= materials@.len(),
                exists|i: int| 0 <= i < materials@.len() && materials@[i]@ == self.material@,
                forall|j: int| 0 <= j < index ==> materials@[j]@ != self.material@,
            decreases materials@.len() - index,
        {
            index = index + 1;
        }
        proof {
            let w = choose|i: int| 0 <= i < materials@.len() && materials@[i]@ == self.material@;
            assert(index < materials@.len()) by {
                if index >= materials@.len() {
                    assert(materials@[w]@ != self.material@);
                }
            }
            let f = first_index(materials@, self.material@);
            assert(0 <= index && index < materials@.len() && materials@[index as int]@ == self.material@
                && forall|j: int| 0 <= j < index ==> materials@[j]@ != self.material@);
            assert(f == index as int) by {
                if f < index {
                } else if f > index {
                }
            }
        }
        if let Some(i) = choice {
            index = i;
        }
        self.material = materials[index].clone();
    }
}

impl Default for UnitUiState {
    /// See `UnitUiState::new`.
    fn default() -> (s: UnitUiState)
        ensures
            !s.spawning,
            s.spawn_mode == SpawnMode::OneShot,
            s.object_type == UnitType::Container1,
            !s.selecting,
            s.selected_count == 0,
            s.selected@.len() == 0,
    {
        UnitUiState::new()
    }
}

impl Default for TileSpawnUiState {
    /// See `TileSpawnUiState::new`.
    fn default() -> (s: TileSpawnUiState)
        ensures
            !s.active,
            s.mode == SpawnMode::OneShot,
            s.tileset@ == "Base"@,
            s.tile@ == "Bilding"@,
    {
        TileSpawnUiState::new()
    }
}

impl Default for TileEditUiState {
    /// See `TileEditUiState::new`.
    fn default() -> (s: TileEditUiState)
        ensures
            !s.active,
            !s.new_tile,
            s.tileset@.len() == 0,
            s.tile@.len() == 0,
    {
        TileEditUiState::new()
    }
}

impl Default for TerrainEditUiState {
    /// See `TerrainEditUiState::new`.
    fn default() -> (s: TerrainEditUiState)
        ensures
            !s.active,
            s.material@ == "basic_tile"@,
    {
        TerrainEditUiState::new()
    }
}

/// What a left click on the map does while tiles are spawned or the terrain is edited.
pub enum EnvClick {
    /// Place tile `tile` of `tileset` standing on `position`.
    SpawnTile { tileset: String, tile: String, position: (i32, i32, i32) },
    /// Empty the voxel at `point`.
    ClearVoxel { point: (i32, i32, i32) },
    /// Fill the voxel at `point` with the building material.
    PlaceVoxel { point: (i32, i32, i32) },
    /// Nothing.
    Nothing,
}

/// The terrain layout picked in the reset panel. The noise parameters of the Perlin-noise
/// layout are floating point; the panel's caller keeps them.
#[derive(Debug)]
pub enum TerrainResetStyle {
    FlatBoard { material: String },
    CheckersBoard { zero: String, one: String },
    PerlinNoise { material: String },
}

/// The position of a layout among the panel's choices: flat board, checkers board, Perlin
/// noise.
pub open spec fn reset_style_index(s: TerrainResetStyle) -> int {
    match s {
        TerrainResetStyle::FlatBoard { .. } => 0,
        TerrainResetStyle::CheckersBoard { .. } => 1,
        TerrainResetStyle::PerlinNoise { .. } => 2,
    }
}

/// The material a flat board starts from: the current one if the layout is a flat board,
/// else "basic_tile".
pub open spec fn flat_material(s: TerrainResetStyle) -> Seq<char> {
    match s {
        TerrainResetStyle::FlatBoard { material } => material@,
        _ => "basic_tile"@,
    }
}

/// The materials a checkers board starts from: the current ones if the layout is a checkers
/// board, else "basic_tile" and "black_plastic".
pub open spec fn checkers_materials(s: TerrainResetStyle) -> (Seq<char>, Seq<char>) {
    match s {
        TerrainResetStyle::CheckersBoard { zero, one } => (zero@, one@),
        _ => ("basic_tile"@, "black_plastic"@),
    }
}

/// The material a noise layout starts from: the current one if the layout is noise, else
/// "basic_tile".
pub open spec fn noise_material(s: TerrainResetStyle) -> Seq<char> {
    match s {
        TerrainResetStyle::PerlinNoise { material } => material@,
        _ => "basic_tile"@,
    }
}

/// The material picked in a list (`picked`), or `start` if none was.
pub open spec fn picked_or(picked: Option<String>, start: Seq<char>) -> Seq<char> {
    match picked {
        Some(m) => m@,
        None => start,
    }
}

/// The reset part of the side panel: the side of the terrain to build and its layout.
pub struct TerrainResetUiState {
    pub size: u32,
    pub style: TerrainResetStyle,
}

impl TerrainResetUiState {
    /// A terrain of side 4096, a flat board of "basic_tile".
    pub fn new() -> (s: TerrainResetUiState)
        ensures
            s.size == 4096,
            s.style matches TerrainResetStyle::FlatBoard { material } && material@ == "basic_tile"@,
    {
        TerrainResetUiState { size: 4096, style: TerrainResetStyle::FlatBoard { material: String::from_str("basic_tile") } }
    }

    /// The position of the current layout among the panel's choices (see `reset_style_index`).
    pub fn style_index(&self) -> (i: u8)
        ensures
            i == reset_style_index(self.style),
    {
        match self.style {
            TerrainResetStyle::FlatBoard { .. } => 0,
            TerrainResetStyle::CheckersBoard { .. } => 1,
            TerrainResetStyle::PerlinNoise { .. } => 2,
        }
    }

    /// One pass of the panel. `new_size` is the size typed, if it reads as a number;
    /// `choice` the layout picked (0 flat board, 1 checkers board, 2 Perlin noise; the
    /// current one when none was clicked); `first` and `second` the materials picked in the
    /// layout's lists, if any (a flat board and noise have one list, a checkers board two).
    /// A layout kept keeps its materials and a newly picked one starts from defaults (see
    /// `flat_material`, `checkers_materials`, `noise_material`); a picked material replaces
    /// the one it is picked for. When "Reset terrain" was `clicked`, the pass asks for a reset
    /// to the panel's state as it ends; otherwise it asks nothing.
    pub fn ui(&mut self, new_size: Option<u32>, choice: u8, first: Option<String>, second: Option<String>, clicked: bool) -> (cmd: Option<EnvUiCmd>)
        requires
            choice < 3,
        ensures
            clicked ==> cmd == Some(EnvUiCmd::ResetTerrain(*final(self))),
            !clicked ==> cmd is None,
            final(self).size == match new_size {
                Some(n) => n,
                None => old(self).size,
            },
            choice == 0 ==> (final(self).style matches TerrainResetStyle::FlatBoard { material }
                && material@ == picked_or(first, flat_material(old(self).style))),
            choice == 1 ==> (final(self).style matches TerrainResetStyle::CheckersBoard { zero, one }
                && zero@ == picked_or(first, checkers_materials(old(self).style).0)
                && one@ == picked_or(second, checkers_materials(old(self).style).1)),
            choice == 2 ==> (final(self).style matches TerrainResetStyle::PerlinNoise { material }
                && material@ == picked_or(first, noise_material(old(self).style))),
    {
        if let Some(n) = new_size {
            self.size = n;
        }
        let mut current = TerrainResetStyle::FlatBoard { material: String::new() };
        std::mem::swap(&mut current, &mut self.style);
        if choice == 0 {
            let start = match current {
                TerrainResetStyle::FlatBoard { material } => material,
                _ => String::from_str("basic_tile"),
            };
            let material = match first {
                Some(m) => m,
                None => start,
            };
            self.style = TerrainResetStyle::FlatBoard { material };
        } else if choice == 1 {
            let (z, o) = match current {
                TerrainResetStyle::CheckersBoard { zero, one } => (zero, one),
                _ => (String::from_str("basic_tile"), String::from_str("black_plastic")),
            };
            let zero = match first {
                Some(m) => m,
                None => z,
            };
            let one = match second {
                Some(m) => m,
                None => o,
            };
            self.style = TerrainResetStyle::CheckersBoard { zero, one };
        } else {
            let start = match current {
                TerrainResetStyle::PerlinNoise { material } => material,
                _ => String::from_str("basic_tile"),
            };
            let material = match first {
                Some(m) => m,
                None => start,
            };
            self.style = TerrainResetStyle::PerlinNoise { material };
        }
        if clicked {
            Some(EnvUiCmd::ResetTerrain(self.copy()))
        } else {
            None
        }
    }

    /// A copy of the panel's state.
    pub fn copy(&self) -> (c: TerrainResetUiState)
        ensures
            c == *self,
    {
        let style = match &self.style {
            TerrainResetStyle::FlatBoard { material } => TerrainResetStyle::FlatBoard { material: material.clone() },
            TerrainResetStyle::CheckersBoard { zero, one } => TerrainResetStyle::CheckersBoard { zero: zero.clone(), one: one.clone() },
            TerrainResetStyle::PerlinNoise { material } => TerrainResetStyle::PerlinNoise { material: material.clone() },
        };
        TerrainResetUiState { size: self.size, style }
    }
}

impl Default for TerrainResetUiState {
    /// See `TerrainResetUiState::new`.
    fn default() -> (s: TerrainResetUiState)
        ensures
            s.size == 4096,
            s.style matches TerrainResetStyle::FlatBoard { material } && material@ == "basic_tile"@,
    {
        TerrainResetUiState::new()
    }
}

/// Decides what a left click on the map does, given where the ray through the cursor hit
/// the terrain (`cast`): spawning a tile places it on top of the voxel hit; editing the
/// terrain empties the voxel hit (`erase`, the control key held) or fills the voxel before
/// it. Spawning in one-shot mode then stops. Outside tile spawning and terrain editing (or
/// while a unit is being spawned) a click does nothing here.
pub fn env_click(
    tile_spawn: &mut TileSpawnUiState,
    terrain_edit_active: bool,
    unit_spawning: bool,
    erase: bool,
    cast: &Option<RayCastResult>,
) -> (r: EnvClick)
    requires
        cast matches Some(c) ==> c.hit.2 < i32::MAX,
    ensures
        !(old(tile_spawn).active || (terrain_edit_active && !unit_spawning)) ==> r is Nothing
            && final(tile_spawn).active == old(tile_spawn).active,
        (old(tile_spawn).active || (terrain_edit_active && !unit_spawning)) ==> {
            &&& final(tile_spawn).active == (old(tile_spawn).active && old(tile_spawn).mode != SpawnMode::OneShot)
            &&& match *cast {
                None => r is Nothing,
                Some(c) => if old(tile_spawn).active {
                    r matches EnvClick::SpawnTile { tileset, tile, position } && tileset@ == old(tile_spawn).tileset@
                        && tile@ == old(tile_spawn).tile@ && position == (c.hit.0, c.hit.1, (c.hit.2 + 1) as i32)
                } else if erase {
                    r == (EnvClick::ClearVoxel { point: c.hit })
                } else {
                    r == (EnvClick::PlaceVoxel { point: c.before_hit })
                },
            }
        },
        final(tile_spawn).mode == old(tile_spawn).mode,
        final(tile_spawn).tileset@ == old(tile_spawn).tileset@,
        final(tile_spawn).tile@ == old(tile_spawn).tile@,
{
    if !(tile_spawn.active || (terrain_edit_active && !unit_spawning)) {
        return EnvClick::Nothing;
    }
    let r = match cast {
        Some(c) => {
            if tile_spawn.active {
                EnvClick::SpawnTile {
                    tileset: tile_spawn.tileset.clone(),
                    tile: tile_spawn.tile.clone(),
                    position: (c.hit.0, c.hit.1, c.hit.2 + 1),
                }
            } else if erase {
                EnvClick::ClearVoxel { point: c.hit }
            } else {
                EnvClick::PlaceVoxel { point: c.before_hit }
            }
        },
        None => EnvClick::Nothing,
    };
    if tile_spawn.mode == SpawnMode::OneShot {
        tile_spawn.active = false;
    }
    r
}

/// The scenes the game can show.
#[derive(Debug, Clone, Copy, PartialEq, Eq, Structural)]
pub enum Scene {
    Menu,
    Shadows,
}

/// What a scene asks the scene manager to do after a frame.
#[derive(Debug, Clone, Copy, PartialEq, Eq, Structural)]
pub enum SceneManagerAction {
    /// Stay in the current scene.
    Stay,
    Scene(Scene),
    Exit,
}

} // verus!
