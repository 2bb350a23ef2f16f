use rts::dyn_mesh::{check_mesh_data, BufferKind, DynMeshUploads, MeshDataError, MeshToDraw};
use rts::input::{mouse_button_code, Drag, InputEvent, InputState, MouseButton};
use rts::tile::EnvTileExporter;
use rts::tilesets::{replace_spaces, EnvTileSetExporter};
use rts::terrain::RayCastResult;
use rts::ui::{
    env_click, EnvClick, EnvUiCmd, SpawnMode, TerrainEditUiState, TerrainResetStyle, TerrainResetUiState, TileEditUiState,
    TileSpawnUiState, UnitType, UnitUiState,
};

#[test]
fn key_press_and_release() {
    let mut s = InputState::new();
    s.update(&InputEvent::Key { code: 17, pressed: true });
    assert!(s.key_pressed.contains(&17));
    assert!(s.key_trigger.contains(&17));
    s.update(&InputEvent::Key { code: 17, pressed: false });
    assert!(!s.key_pressed.contains(&17));
    assert!(s.key_release.contains(&17));
    s.clear();
    assert!(s.key_trigger.is_empty());
    assert!(s.key_release.is_empty());
}

#[test]
fn left_drag_cycle() {
    let mut s = InputState::new();
    s.update(&InputEvent::CursorMoved { x: 10, y: 20, ux: 10, uy: 20 });
    assert_eq!(s.cursor_offset, (10, 20));
    s.update(&InputEvent::Mouse { button: MouseButton::Left, pressed: true });
    assert_eq!(s.drag, Drag::Start { x0: 10, y0: 20 });
    s.update(&InputEvent::CursorMoved { x: 15, y: 18, ux: 15, uy: 18 });
    assert_eq!(s.cursor_offset, (5, -2));
    assert_eq!(s.drag, Drag::Dragging { x0: 10, y0: 20, x1: 15, y1: 18 });
    s.update(&InputEvent::Mouse { button: MouseButton::Left, pressed: false });
    assert_eq!(s.drag, Drag::End { x0: 10, y0: 20, x1: 15, y1: 18 });
    assert!(s.mouse_release.contains(&0));
    s.clear();
    assert_eq!(s.drag, Drag::Idle);
    assert_eq!(s.cursor_offset, (0, 0));
}

#[test]
fn click_without_move_is_no_drag() {
    let mut s = InputState::new();
    s.update(&InputEvent::Mouse { button: MouseButton::Left, pressed: true });
    s.update(&InputEvent::Mouse { button: MouseButton::Left, pressed: false });
    assert_eq!(s.drag, Drag::Idle);
    s.update(&InputEvent::Mouse { button: MouseButton::Right, pressed: true });
    assert!(s.mouse_pressed.contains(&1));
    assert_eq!(mouse_button_code(MouseButton::Other(4)), 7);
    s.update(&InputEvent::Other);
    assert!(s.mouse_trigger.contains(&1));
}

#[test]
fn mesh_data_checks() {
    assert_eq!(check_mesh_data(None, Some(1), Some(1)), Err(MeshDataError::NotInitialized));
    assert_eq!(check_mesh_data(Some(0), Some(1), None), Err(MeshDataError::NotInitialized));
    assert_eq!(check_mesh_data(Some(4), Some(0), Some(6)), Err(MeshDataError::NoData));
    assert_eq!(check_mesh_data(Some(4), Some(2), Some(6)), Ok(()));
}

#[test]
fn mesh_completes_after_three_buffers() {
    let mut m = DynMeshUploads::new();
    let h = m.add_dyn_mesh((1, 2, 3));
    assert_eq!(h, 0);
    assert_eq!(m.get_dyn_mesh(h), MeshToDraw::Nothing);
    assert_eq!(m.upload_result(BufferKind::Index, 3, true), None);
    assert_eq!(m.upload_result(BufferKind::VertexFull, 1, true), None);
    assert_eq!(m.upload_result(BufferKind::VertexPosition, 2, true), Some(0));
    assert_eq!(m.get_dyn_mesh(h), MeshToDraw::Current);
    m.update_dyn_mesh(h, (4, 5, 6));
    assert_eq!(m.get_dyn_mesh(h), MeshToDraw::Previous);
    assert_eq!(m.upload_result(BufferKind::VertexFull, 4, false), None);
    assert_eq!(m.get_dyn_mesh(h), MeshToDraw::Nothing);
    assert_eq!(m.upload_result(BufferKind::Index, 6, true), None);
    assert_eq!(m.get_dyn_mesh(h), MeshToDraw::Nothing);
}

#[test]
fn spawn_mode_checkbox() {
    let mut mode = SpawnMode::MultiShot;
    let mut spawning = true;
    mode.ui(false, true, &mut spawning);
    assert_eq!(mode, SpawnMode::OneShot);
    assert!(!spawning);
    let mut spawning = true;
    mode.ui(true, true, &mut spawning);
    assert_eq!(mode, SpawnMode::MultiShot);
    assert!(spawning);
}

#[test]
fn unit_names() {
    assert_eq!(UnitType::Container1.to_string(), "Container 1");
    assert_eq!(UnitType::Container2.to_string(), "Container 2");
    assert_eq!(UnitType::BlueIcosphere.to_string(), "Blue icosphere");
}

#[test]
fn unit_spawning_and_selection() {
    let mut u = UnitUiState::new();
    assert_eq!(u.spawn_click(), None);
    u.choose_unit(UnitType::BlueIcosphere);
    assert!(u.spawning);
    assert_eq!(u.spawn_click(), Some(UnitType::BlueIcosphere));
    assert!(!u.spawning);
    u.update_selecting(true, false, false);
    assert!(u.selecting);
    u.count_selected(&vec![UnitType::Container2, UnitType::Container1, UnitType::Container2]);
    assert_eq!(u.selected_count, 3);
    assert_eq!(u.selected, vec![(UnitType::Container2, 2), (UnitType::Container1, 1)]);
    u.update_selecting(true, true, false);
    assert!(!u.selecting);
    u.count_selected(&vec![]);
    assert_eq!(u.selected_count, 3);
}

#[test]
fn tile_spawn_selection() {
    let mut t = TileSpawnUiState::new();
    assert_eq!(t.tileset, "Base");
    assert_eq!(t.tile, "Bilding");
    assert!(!t.active);
    t.select_tile("Trees".to_string(), "Oak".to_string());
    assert!(t.active);
    assert_eq!(t.tile, "Oak");
}

#[test]
fn tile_edit_flow() {
    let mut e = TileEditUiState::new();
    let mut terrain_edit = TerrainEditUiState::new();
    assert_eq!(terrain_edit.material, "basic_tile");
    let cmd = e.start_edit(&mut terrain_edit, "Base".to_string(), "Hut".to_string(), true);
    assert!(matches!(cmd, EnvUiCmd::StartEditTile { ref tile_name, .. } if tile_name.is_empty()));
    assert!(terrain_edit.active);
    assert!(e.new_tile);
    assert!(e.save_command().is_none());
    e.tile = "Small Hut".to_string();
    match e.save_command() {
        Some(EnvUiCmd::SaveEditedTile { tileset_name, tile_name }) => {
            assert_eq!(tileset_name, Some("Base".to_string()));
            assert_eq!(tile_name, "Small Hut");
        }
        _ => panic!("expected a save command"),
    }
    assert!(e.save_result(false).is_none());
    assert!(e.active);
    assert!(matches!(e.save_result(true), Some(EnvUiCmd::FinishEditTile)));
    assert!(!e.active);
    assert_eq!(e.tile, "");
}

#[test]
fn terrain_material_choice() {
    let materials: Vec<String> = vec!["a".to_string(), "basic_tile".to_string(), "c".to_string()];
    let mut t = TerrainEditUiState::new();
    t.ui(&materials, Some(2));
    assert_eq!(t.material, "basic_tile");
    t.active = true;
    t.ui(&materials, None);
    assert_eq!(t.material, "basic_tile");
    t.ui(&materials, Some(2));
    assert_eq!(t.material, "c");
}

#[test]
fn tile_file_names_and_paths() {
    assert_eq!(replace_spaces("a b  c"), "a_b__c");
    assert_eq!(EnvTileExporter::get_tile_file_name("Small Hut"), "small_hut");
    assert_eq!(EnvTileExporter::get_tile_path("Big Tower 2"), "assets/tiles/big_tower_2.tile");
    assert_eq!(EnvTileSetExporter::get_tileset_path("Base Set"), "assets/tiles/base_set.tileset");
}

#[test]
fn map_clicks() {
    let cast = Some(RayCastResult { hit: (1, 2, 3), before_hit: (1, 2, 4) });
    let mut spawn = TileSpawnUiState::new();
    assert!(matches!(env_click(&mut spawn, false, false, false, &cast), EnvClick::Nothing));
    assert!(matches!(env_click(&mut spawn, true, false, false, &cast), EnvClick::PlaceVoxel { point: (1, 2, 4) }));
    assert!(matches!(env_click(&mut spawn, true, false, true, &cast), EnvClick::ClearVoxel { point: (1, 2, 3) }));
    assert!(matches!(env_click(&mut spawn, true, true, true, &cast), EnvClick::Nothing));
    spawn.select_tile("Base".to_string(), "Hut".to_string());
    match env_click(&mut spawn, true, false, false, &cast) {
        EnvClick::SpawnTile { tileset, tile, position } => {
            assert_eq!(tileset, "Base");
            assert_eq!(tile, "Hut");
            assert_eq!(position, (1, 2, 4));
        }
        _ => panic!("expected a tile spawn"),
    }
    assert!(!spawn.active);
    spawn.mode = SpawnMode::MultiShot;
    spawn.active = true;
    assert!(matches!(env_click(&mut spawn, false, false, false, &None), EnvClick::Nothing));
    assert!(spawn.active);
}

fn flat(s: &TerrainResetStyle) -> Option<String> {
    match s {
        TerrainResetStyle::FlatBoard { material } => Some(material.clone()),
        _ => None,
    }
}

#[test]
fn reset_panel_starts_flat() {
    let s = TerrainResetUiState::default();
    assert_eq!(s.size, 4096);
    assert_eq!(flat(&s.style), Some("basic_tile".to_string()));
    assert_eq!(s.style_index(), 0);
}

#[test]
fn reset_panel_new_layout_starts_from_defaults() {
    let mut s = TerrainResetUiState::new();
    assert!(s.ui(Some(64), 1, None, None, false).is_none());
    assert_eq!(s.size, 64);
    assert_eq!(s.style_index(), 1);
    match &s.style {
        TerrainResetStyle::CheckersBoard { zero, one } => {
            assert_eq!(zero, "basic_tile");
            assert_eq!(one, "black_plastic");
        }
        other => panic!("unexpected layout {:?}", other),
    }
    // a kept layout keeps its materials; a picked one replaces its slot
    assert!(s.ui(None, 1, None, Some("curly_tile".to_string()), false).is_none());
    assert_eq!(s.size, 64);
    match &s.style {
        TerrainResetStyle::CheckersBoard { zero, one } => {
            assert_eq!(zero, "basic_tile");
            assert_eq!(one, "curly_tile");
        }
        other => panic!("unexpected layout {:?}", other),
    }
}

#[test]
fn reset_panel_kept_flat_material_stays() {
    let mut s = TerrainResetUiState::new();
    s.ui(None, 0, Some("flat_red".to_string()), None, false);
    s.ui(None, 0, None, None, false);
    assert_eq!(flat(&s.style), Some("flat_red".to_string()));
    s.ui(None, 2, None, None, false);
    match &s.style {
        TerrainResetStyle::PerlinNoise { material } => assert_eq!(material, "basic_tile"),
        other => panic!("unexpected layout {:?}", other),
    }
}

#[test]
fn reset_panel_click_asks_for_reset_with_final_state() {
    let mut s = TerrainResetUiState::new();
    let cmd = s.ui(Some(128), 1, Some("flat_red".to_string()), None, true);
    match cmd {
        Some(EnvUiCmd::ResetTerrain(r)) => {
            assert_eq!(r.size, 128);
            match &r.style {
                TerrainResetStyle::CheckersBoard { zero, one } => {
                    assert_eq!(zero, "flat_red");
                    assert_eq!(one, "black_plastic");
                }
                other => panic!("unexpected layout {:?}", other),
            }
        }
        _ => panic!("a click must ask for a reset"),
    }
    // the panel itself keeps the same state
    assert_eq!(s.size, 128);
    assert_eq!(s.style_index(), 1);
    assert!(s.ui(None, 1, None, None, false).is_none());
}

#[test]
fn cursor_offset_reads_a_large_position_as_wrapped() {
    let mut s = InputState::new();
    s.cursor_pos = (u32::MAX, 7);
    // u32::MAX read as i32 is -1
    s.update(&InputEvent::CursorMoved { x: 4, y: 7, ux: 4, uy: 7 });
    assert_eq!(s.cursor_offset, (5, 0));
    assert_eq!(s.cursor_pos, (4, 7));
}
