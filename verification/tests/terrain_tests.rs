use rts::chunks::{get_super_chunk_key, TerrainChunk};
use rts::terrain::{
    get_default_material_names, MeshJobOutcome, Terrain, TerrainFillStyle, TerrainVoxel,
};
use rts::tile::{EnvTileAsset, EnvTileAssetData, EnvTileLoadHandler};
use rts::tilesets::{find_tile, LoadedTileSet, TileSetExportData, TileSetsExportData};
use rts::voxels::chunk_mins_for_box;

fn names() -> Vec<String> {
    get_default_material_names().iter().map(|s| s.to_string()).collect()
}

fn flat(size: u32) -> Terrain {
    Terrain::new_terrain(
        names(),
        (0, 0, 0),
        size,
        &TerrainFillStyle::FlatBoard { material: "basic_tile".to_string() },
    )
}

#[test]
fn default_materials_are_ten() {
    let n = get_default_material_names();
    assert_eq!(n.len(), 10);
    assert_eq!(n[0], "flat_red");
    assert_eq!(n[5], "basic_tile");
    assert_eq!(n[9], "curly_tile");
}

#[test]
fn voxel_by_material_is_one_based() {
    let t = flat(32);
    assert_eq!(t.voxel_by_material("flat_red"), Some(TerrainVoxel(1)));
    assert_eq!(t.voxel_by_material("curly_tile"), Some(TerrainVoxel(10)));
    assert_eq!(t.voxel_by_material("granite"), None);
    assert_eq!(t.material_name_by_voxel(&TerrainVoxel(6)), "basic_tile");
    assert_eq!(t.material_name_by_voxel(&TerrainVoxel(0)), "");
}

#[test]
fn duplicate_material_name_takes_last_code() {
    let t = Terrain::new_terrain(
        vec!["a".to_string(), "b".to_string(), "a".to_string()],
        (0, 0, 0),
        16,
        &TerrainFillStyle::FlatBoard { material: "a".to_string() },
    );
    assert_eq!(t.voxel_by_material("a"), Some(TerrainVoxel(3)));
    assert_eq!(t.voxel((0, 0, -1)), TerrainVoxel(3));
}

#[test]
fn flat_board_fills_one_layer_below_origin() {
    let t = flat(32);
    assert_eq!(t.voxel((0, 0, -1)), TerrainVoxel(6));
    assert_eq!(t.voxel((-16, -16, -1)), TerrainVoxel(6));
    assert_eq!(t.voxel((15, 15, -1)), TerrainVoxel(6));
    assert_eq!(t.voxel((16, 0, -1)), TerrainVoxel(0));
    assert_eq!(t.voxel((0, 0, 0)), TerrainVoxel(0));
    assert_eq!(t.voxel((0, 0, -2)), TerrainVoxel(0));
}

#[test]
fn flat_board_marks_occupied_chunks_dirty() {
    let t = flat(32);
    // base x, y in -16..16, z = -1: chunks with x, y in {-16, 0} and z = -16
    for key in [(-16, -16, -16), (0, -16, -16), (-16, 0, -16), (0, 0, -16)] {
        let c = t.chunk(key).unwrap();
        assert!(c.dirty);
        assert!(!c.building);
        assert_eq!(c.mesh, None);
    }
    assert_eq!(t.chunk((0, 0, 0)), None);
    assert_eq!(t.active_builders(), 0);
}

#[test]
fn checkers_board_alternates_by_parity() {
    let t = Terrain::new_terrain(
        names(),
        (0, 0, 0),
        8,
        &TerrainFillStyle::CheckersBoard { zero: "flat_red".to_string(), one: "flat_blue".to_string() },
    );
    assert_eq!(t.voxel((0, 0, -1)), TerrainVoxel(1));
    assert_eq!(t.voxel((1, 0, -1)), TerrainVoxel(3));
    assert_eq!(t.voxel((-1, 0, -1)), TerrainVoxel(3));
    assert_eq!(t.voxel((-1, -1, -1)), TerrainVoxel(1));
    assert_eq!(t.voxel((-4, 3, -1)), TerrainVoxel(3));
    assert_eq!(t.voxel((4, 0, -1)), TerrainVoxel(0));
}

#[test]
fn perlin_style_fills_columns_below_heights() {
    let size = 2u32;
    // columns (x, y) for x, y in -1..1, row by row
    let heights = vec![10, 20, 30, 5];
    let t = Terrain::new_terrain(
        names(),
        (0, 0, 0),
        size,
        &TerrainFillStyle::PerlinNoise { heights, material: "old_bronze".to_string() },
    );
    assert_eq!(t.voxel((-1, -1, 9)), TerrainVoxel(5));
    assert_eq!(t.voxel((-1, -1, 2)), TerrainVoxel(5));
    assert_eq!(t.voxel((-1, -1, 1)), TerrainVoxel(0));
    assert_eq!(t.voxel((-1, -1, 10)), TerrainVoxel(0));
    assert_eq!(t.voxel((0, -1, 19)), TerrainVoxel(5));
    assert_eq!(t.voxel((-1, 0, 22)), TerrainVoxel(5));
    assert_eq!(t.voxel((0, 0, -3)), TerrainVoxel(5));
    assert_eq!(t.voxel((0, 0, -4)), TerrainVoxel(0));
}

#[test]
fn super_chunk_key_rounds_toward_zero_then_down() {
    assert_eq!(get_super_chunk_key((0, 0, 0)), (0, 0, 0));
    assert_eq!(get_super_chunk_key((300, 512, 16)), (256, 512, 0));
    assert_eq!(get_super_chunk_key((-16, -240, -272)), (-256, -256, -512));
    // a negative multiple of 256 lands one super chunk lower
    assert_eq!(get_super_chunk_key((-256, -512, 0)), (-512, -768, 0));
}

#[test]
fn chunk_mins_cover_box_in_order() {
    let r = chunk_mins_for_box((15, 15, 15), (16, 16, 16));
    assert_eq!(
        r,
        vec![
            (0, 0, 0),
            (16, 0, 0),
            (0, 16, 0),
            (16, 16, 0),
            (0, 0, 16),
            (16, 0, 16),
            (0, 16, 16),
            (16, 16, 16)
        ]
    );
    assert_eq!(chunk_mins_for_box((-1, 0, 0), (1, 1, 1)), vec![(-16, 0, 0)]);
}

#[test]
fn update_voxel_sets_voxel_and_marks_neighbours() {
    let mut t = flat(32);
    t.update_voxel((15, 15, 0), TerrainVoxel(2));
    assert_eq!(t.voxel((15, 15, 0)), TerrainVoxel(2));
    // the 3x3x3 box around (15, 15, 0) spans chunks 0 and 16 in x and y, -16 and 0 in z
    for key in [(0, 0, 0), (16, 16, 0), (16, 0, -16), (0, 16, -16)] {
        assert!(t.chunk(key).unwrap().dirty);
    }
    t.clear_voxel((15, 15, 0));
    assert_eq!(t.voxel((15, 15, 0)), TerrainVoxel(0));
}

#[test]
fn mesh_jobs_start_nearest_first_and_finish() {
    let mut t = flat(64);
    let jobs = t.start_mesh_jobs((0, 0, 0));
    // the first batch takes every eligible chunk: x, y in {-32, -16, 0, 16}
    assert_eq!(jobs.len(), 16);
    let d = |k: (i32, i32, i32)| k.0.abs().max(k.1.abs());
    for w in jobs.windows(2) {
        assert!(d(w[0].0) <= d(w[1].0));
    }
    let (key, arr) = &jobs[0];
    assert_eq!(arr.extent(), ((key.0 - 1, key.1 - 1, key.2 - 1), (18, 18, 18)));
    assert_eq!(t.active_builders(), 16);
    assert!(t.chunk(*key).unwrap().building);
    assert!(!t.chunk(*key).unwrap().dirty);
    // nothing else starts while every chunk is building
    assert_eq!(t.start_mesh_jobs((0, 0, 0)).len(), 0);

    let out = t.finish_mesh_job(*key, true);
    assert!(matches!(out, MeshJobOutcome::AddMesh { request: 1 }));
    assert_eq!(t.active_builders(), 15);
    assert_eq!(t.finish_mesh_add(1, Some(7)), Some(*key));
    assert_eq!(t.chunk(*key).unwrap().mesh, Some(7));
    assert_eq!(t.finish_mesh_add(1, Some(8)), None);

    let other = jobs[1].0;
    let out = t.finish_mesh_job(other, false);
    assert!(matches!(out, MeshJobOutcome::Cleared { released: None }));
    assert!(matches!(t.finish_mesh_job((4096, 4096, 0), true), MeshJobOutcome::Stale));
}

#[test]
fn later_batches_are_limited_to_four() {
    let mut t = flat(64);
    let first = t.start_mesh_jobs((0, 0, 0));
    for (k, _) in &first {
        t.finish_mesh_job(*k, false);
    }
    t.update_voxel((0, 0, 5), TerrainVoxel(1));
    t.update_voxel((40, 40, 5), TerrainVoxel(1));
    let jobs = t.start_mesh_jobs((0, 0, 0));
    assert_eq!(jobs.len(), 4);
}

#[test]
fn reset_releases_meshes_and_regenerates() {
    let mut t = flat(32);
    let jobs = t.start_mesh_jobs((0, 0, 0));
    let key = jobs[0].0;
    if let MeshJobOutcome::AddMesh { request } = t.finish_mesh_job(key, true) {
        t.finish_mesh_add(request, Some(3));
    }
    let released = t.reset(
        (0, 0, 0),
        16,
        &TerrainFillStyle::FlatBoard { material: "flat_green".to_string() },
    );
    assert_eq!(released, vec![3]);
    assert_eq!(t.voxel((0, 0, -1)), TerrainVoxel(2));
    assert_eq!(t.voxel((10, 0, -1)), TerrainVoxel(0));
    assert_eq!(t.active_builders(), 0);
    assert_eq!(t.chunk((0, 0, -16)), Some(TerrainChunk { dirty: true, building: false, mesh: None }));
}

#[test]
fn ray_cast_finds_first_filled_cell() {
    let t = flat(32);
    let cells = vec![(0, 0, 2), (0, 0, 1), (0, 0, 0), (0, 0, -1), (0, 0, -2)];
    let hit = t.ray_cast((0, 0, 3), &cells).unwrap();
    assert_eq!(hit.hit, (0, 0, -1));
    assert_eq!(hit.before_hit, (0, 0, 0));
    let first = t.ray_cast((5, 5, 0), &vec![(5, 5, -1)]).unwrap();
    assert_eq!(first.before_hit, (5, 5, 0));
    assert!(t.ray_cast((0, 0, 9), &vec![(0, 0, 8), (0, 0, 7)]).is_none());
}

fn tile_data() -> EnvTileAssetData {
    EnvTileAssetData {
        name: "Bilding".to_string(),
        palette: vec!["flat_red".to_string(), "curly_tile".to_string()],
        voxels: vec![vec!["0102".to_string(), "0000".to_string()], vec!["0200".to_string()]],
    }
}

#[test]
fn instance_tile_places_remapped_voxels_centered() {
    let mut t = flat(32);
    let tile: EnvTileAsset = EnvTileLoadHandler::load(tile_data()).ok().unwrap();
    t.instance_tile(&tile, (5, 5, 0));
    // shape (2, 2, 2): placed at (5 - 1, 5 - 1, 0)
    assert_eq!(t.voxel((4, 4, 0)), TerrainVoxel(1));
    assert_eq!(t.voxel((5, 4, 0)), TerrainVoxel(10));
    assert_eq!(t.voxel((4, 5, 0)), TerrainVoxel(0));
    assert_eq!(t.voxel((4, 4, 1)), TerrainVoxel(10));
    assert_eq!(t.voxel((5, 4, 1)), TerrainVoxel(0));
    assert!(t.chunk((0, 0, 0)).unwrap().dirty);
}

#[test]
fn save_edited_tile_cuts_the_filled_box() {
    let mut t = flat(64);
    t.update_voxel((-2, 3, 0), TerrainVoxel(4));
    t.update_voxel((1, 3, 2), TerrainVoxel(7));
    let data = t.save_edited_tile("Small Hut");
    assert_eq!(data.name, "Small Hut");
    assert_eq!(data.palette, vec!["blue_metal".to_string(), "round_tile".to_string()]);
    // box from (-2, 3, 0) to (1, 3, 2)
    assert_eq!(
        data.voxels,
        vec![
            vec!["01000000".to_string()],
            vec!["00000000".to_string()],
            vec!["00000002".to_string()]
        ]
    );
}

#[test]
fn save_edited_tile_of_empty_platform_is_empty() {
    let t = flat(64);
    let data = t.save_edited_tile("Nothing");
    assert!(data.palette.is_empty());
    assert!(data.voxels.is_empty());
}

#[test]
fn exported_tile_loads_back() {
    let mut t = flat(64);
    t.update_voxel((0, 0, 0), TerrainVoxel(3));
    t.update_voxel((1, 0, 0), TerrainVoxel(9));
    t.update_voxel((0, 1, 1), TerrainVoxel(3));
    let data = t.save_edited_tile("Round trip");
    let tile = EnvTileLoadHandler::load(data).ok().unwrap();
    let a = &tile.inner.voxels;
    assert_eq!(a.extent(), ((0, 0, 0), (2, 2, 2)));
    let pal = &tile.inner.palette;
    assert_eq!(pal[(a.get((0, 0, 0)) - 1) as usize], "flat_blue");
    assert_eq!(pal[(a.get((1, 0, 0)) - 1) as usize], "black_plastic");
    assert_eq!(pal[(a.get((0, 1, 1)) - 1) as usize], "flat_blue");
    assert_eq!(a.get((1, 1, 1)), 0);
}

#[test]
fn tileset_export_data_lists_tile_files() {
    let mut d = tile_data();
    d.name = "Small Hut".to_string();
    let hut = EnvTileLoadHandler::load(d).ok().unwrap();
    let sets = vec![
        LoadedTileSet { name: "Base".to_string(), tiles: vec![hut] },
        LoadedTileSet { name: "Trees".to_string(), tiles: vec![] },
    ];
    let one = TileSetExportData::new(&sets[0]);
    assert_eq!(one.name, "Base");
    assert_eq!(one.tiles, vec!["small_hut".to_string()]);
    let all = TileSetsExportData::new(&sets, "Trees", "Old Oak");
    assert_eq!(all.tilesets.len(), 2);
    assert_eq!(all.tilesets[0].tiles, vec!["small_hut".to_string()]);
    assert_eq!(all.tilesets[1].tiles, vec!["old_oak".to_string()]);
}

#[test]
fn find_tile_by_names() {
    let mut d = tile_data();
    d.name = "Hut".to_string();
    let hut = EnvTileLoadHandler::load(d).ok().unwrap();
    let sets = vec![LoadedTileSet { name: "Base".to_string(), tiles: vec![hut] }];
    assert!(find_tile(&sets, "Base", "Hut").is_some());
    assert!(find_tile(&sets, "Base", "Tower").is_none());
    assert!(find_tile(&sets, "Trees", "Hut").is_none());
}

fn building_count(t: &Terrain, keys: &[(i32, i32, i32)]) -> usize {
    keys.iter().filter(|k| t.chunk(**k).map_or(false, |c| c.building)).count()
}

#[test]
fn running_job_count_matches_building_chunks() {
    let mut t = flat(64);
    let keys: Vec<(i32, i32, i32)> = chunk_mins_for_box((-64, -64, -32), (128, 128, 64));
    assert_eq!(t.active_builders(), building_count(&t, &keys));
    let jobs = t.start_mesh_jobs((0, 0, 0));
    assert_eq!(t.active_builders(), 16);
    assert_eq!(building_count(&t, &keys), 16);
    t.finish_mesh_job(jobs[0].0, true);
    t.finish_mesh_job(jobs[1].0, false);
    t.update_voxel((0, 0, 3), TerrainVoxel(2));
    assert_eq!(t.active_builders(), 14);
    assert_eq!(building_count(&t, &keys), 14);
    t.reset((0, 0, 0), 32, &TerrainFillStyle::FlatBoard { material: "flat_red".to_string() });
    assert_eq!(t.active_builders(), 0);
    assert_eq!(building_count(&t, &keys), 0);
}

#[test]
fn platform_with_unknown_code_is_not_savable() {
    let mut t = flat(64);
    t.update_voxel((0, 0, 1), TerrainVoxel(4));
    assert!(t.edited_tile_savable());
    t.update_voxel((3, -2, 5), TerrainVoxel(11));
    assert!(!t.edited_tile_savable());
    t.update_voxel((3, -2, 5), TerrainVoxel(10));
    assert!(t.edited_tile_savable());
}
